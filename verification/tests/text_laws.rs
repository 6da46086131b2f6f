use std::borrow::Cow;

use cow_str_ext::{ByteRange, CowStrExt};

const TEXTS: [&str; 5] = ["", "abc", "héllo", "日本語", "a😀é€z"];

fn prefix_lengths(s: &str) -> Vec<usize> {
    let mut lengths = vec![0];
    let mut total = 0;
    for c in s.chars() {
        total += c.len_utf8();
        lengths.push(total);
    }
    lengths
}

#[test]
fn boundaries_are_the_prefix_lengths() {
    for text in TEXTS {
        let lengths = prefix_lengths(text);
        for at in 0..=text.len() + 2 {
            assert_eq!(ByteRange::From(at).fits_str(text), lengths.contains(&at));
            assert_eq!(ByteRange::To(at).fits_str(text), lengths.contains(&at));
        }
    }
}

#[test]
fn offsets_inside_a_three_byte_scalar_are_refused() {
    let text = "€uro";
    assert!(ByteRange::From(0).fits_str(text));
    assert!(!ByteRange::From(1).fits_str(text));
    assert!(!ByteRange::From(2).fits_str(text));
    assert!(ByteRange::From(3).fits_str(text));
    assert!(!ByteRange::Between(1, 3).fits_str(text));
    assert!(!ByteRange::Between(0, 1).fits_str(text));
    assert!(!ByteRange::To(2).fits_str(text));
}

#[test]
fn slice_is_a_run_of_whole_characters() {
    for text in TEXTS {
        let lengths = prefix_lengths(text);
        let value: Cow<'_, str> = Cow::Borrowed(text);
        for (i, &start) in lengths.iter().enumerate() {
            for (j, &end) in lengths.iter().enumerate().skip(i) {
                let piece = value.index(ByteRange::Between(start, end));
                let run: String = text.chars().skip(i).take(j - i).collect();
                assert_eq!(piece, run);
            }
        }
    }
}

#[test]
fn pop_takes_the_bytes_of_one_character() {
    for text in TEXTS {
        let mut value: Cow<'_, str> = Cow::Owned(text.to_string());
        let mut expected: Vec<char> = text.chars().collect();
        while let Some(c) = value.pop() {
            assert_eq!(Some(c), expected.pop());
            let kept: String = expected.iter().collect();
            assert_eq!(value, kept);
            let mut bytes = value.as_bytes().to_vec();
            bytes.extend_from_slice(c.encode_utf8(&mut [0; 4]).as_bytes());
            assert_eq!(bytes.len(), value.len() + c.len_utf8());
        }
        assert!(expected.is_empty());
        assert_eq!(value, "");
    }
}

#[test]
fn halves_have_the_bytes_on_each_side() {
    let text = "a😀é€z";
    for at in prefix_lengths(text) {
        let (left, right) = Cow::Borrowed(text).split_at(at);
        assert_eq!(left.as_bytes(), &text.as_bytes()[..at]);
        assert_eq!(right.as_bytes(), &text.as_bytes()[at..]);
    }
}

#[test]
fn shrink_twice_to_the_whole_is_idle() {
    let mut value: Cow<'_, str> = Cow::Borrowed("日本語");
    value.shrink(ByteRange::Between(3, 9));
    assert_eq!(value, "本語");
    value.shrink(ByteRange::Full);
    assert_eq!(value, "本語");
    value.shrink(ByteRange::Between(0, 6));
    assert_eq!(value, "本語");
}
