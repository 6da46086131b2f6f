use cow_str_ext::slice::{last_boundary, slice_bytes, split_bytes};
use cow_str_ext::ByteRange;

#[test]
fn bounds_of_each_kind() {
    assert_eq!(ByteRange::Full.bounds(6), (0, 6));
    assert_eq!(ByteRange::From(2).bounds(6), (2, 6));
    assert_eq!(ByteRange::To(4).bounds(6), (0, 4));
    assert_eq!(ByteRange::Between(1, 3).bounds(6), (1, 3));
    assert_eq!(ByteRange::Full.bounds(0), (0, 0));
}

#[test]
fn offset_inside_a_scalar_does_not_fit() {
    let text = "日本";
    assert!(ByteRange::Between(0, 3).fits_str(text));
    assert!(!ByteRange::Between(1, 3).fits_str(text));
    assert!(!ByteRange::Between(0, 2).fits_str(text));
    assert!(!ByteRange::From(1).fits_str(text));
    assert!(!ByteRange::From(2).fits_str(text));
    assert!(!ByteRange::To(4).fits_str(text));
    assert!(ByteRange::From(3).fits_str(text));
    assert!(ByteRange::To(6).fits_str(text));
}

#[test]
fn offset_past_the_end_does_not_fit() {
    assert!(!ByteRange::To(4).fits_str("abc"));
    assert!(!ByteRange::From(4).fits_str("abc"));
    assert!(!ByteRange::Between(2, 4).fits_str("abc"));
    assert!(ByteRange::Between(3, 3).fits_str("abc"));
    assert!(ByteRange::Full.fits_str("abc"));
    assert!(ByteRange::Full.fits_str(""));
}

#[test]
fn backward_range_does_not_fit() {
    assert!(!ByteRange::Between(2, 1).fits_str("abc"));
    assert!(ByteRange::Between(1, 2).fits_str("abc"));
}

#[test]
fn fits_agrees_with_std_slicing() {
    let text = "a😀é€z";
    for start in 0..=text.len() + 1 {
        for end in 0..=text.len() + 1 {
            let fits = ByteRange::Between(start, end).fits_str(text);
            assert_eq!(fits, text.get(start..end).is_some());
        }
        assert_eq!(ByteRange::From(start).fits_str(text), text.get(start..).is_some());
        assert_eq!(ByteRange::To(start).fits_str(text), text.get(..start).is_some());
    }
}

#[test]
fn slice_bytes_exact() {
    assert_eq!(slice_bytes("héllo", 1, 3), "é");
    assert_eq!(slice_bytes("héllo", 0, 0), "");
    assert_eq!(slice_bytes("héllo", 0, 6), "héllo");
    assert_eq!(slice_bytes("a😀é€z", 1, 7), "😀é");
}

#[test]
fn split_bytes_exact() {
    assert_eq!(split_bytes("héllo", 3), ("hé", "llo"));
    assert_eq!(split_bytes("héllo", 0), ("", "héllo"));
    assert_eq!(split_bytes("héllo", 6), ("héllo", ""));
}

#[test]
fn last_boundary_of_each_width() {
    assert_eq!(last_boundary("a"), 0);
    assert_eq!(last_boundary("ab"), 1);
    assert_eq!(last_boundary("aé"), 1);
    assert_eq!(last_boundary("a€"), 1);
    assert_eq!(last_boundary("a😀"), 1);
    assert_eq!(last_boundary("😀"), 0);
    assert_eq!(last_boundary("日本語"), 6);
}
