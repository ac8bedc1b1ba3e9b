use cat2text::anybase;
use cat2text::base4;
use cat2text::bytes::{from_bytes, to_bytes};
use cat2text::error::CatError;
use cat2text::numeral;
use cat2text::numeral::{cat_to_num, num_to_cat, split_every_x, NO_WIDTH};

fn strings(words: &[&str]) -> Vec<String> {
    words.iter().map(|w| w.to_string()).collect()
}

#[test]
fn test_anybase_base4() {
    let text = "i love cats".to_string();

    let encoded = anybase::encode(text.clone(), 4, numeral::char_length(4)).unwrap();
    assert_eq!(base4::encode(text).unwrap(), encoded);

    let decoded = anybase::decode(encoded.clone(), 4, numeral::char_length(4));
    assert_eq!(base4::decode(encoded), decoded);
}

#[test]
fn base4_text_scenario() {
    let expected = "meow mreow mrrp; meow mrow meow meow mrow mrow mrrp mrrp mreow meow mrrp mrrp; meow meow mrow meow meow mrrp mrrp mrrp meow mrrp meow mrow";
    assert_eq!(base4::encode("i love cats".to_string()).unwrap(), expected);
    assert_eq!(base4::decode(expected.to_string()).unwrap(), "i love cats");
}

#[test]
fn base10_text_scenario() {
    let expected = "meow mewo; mrrp mreow mrrp nyaaaa~ mreow mreow meow nyaaaa~; meow mrow meow mrrp mreow meow mrrp mewo";
    let width = anybase::char_length(10);
    assert_eq!(width, 2);
    assert_eq!(anybase::encode("i love cats".to_string(), 10, width).unwrap(), expected);
    assert_eq!(anybase::decode(expected.to_string(), 10, width).unwrap(), "i love cats");
}

#[test]
fn base4_bytes_width3_scenario() {
    let encoded = anybase::bytes::encode(&[9, 1], 4, 3).unwrap();
    assert_eq!(encoded, "meow mreow mrrp meow meow mrrp");
    assert_eq!(anybase::bytes::decode(encoded, 4, 3).unwrap(), vec![9, 1]);
}

#[test]
fn base10_bytes_examples() {
    let width = anybase::char_length(10);
    assert_eq!(anybase::bytes::encode(&[9, 1], 10, width).unwrap(), "meow mewo meow mrrp");
    assert_eq!(
        anybase::bytes::decode("mreow mrrp meow mrrp".to_string(), 10, width).unwrap(),
        vec![21, 1]
    );
}

#[test]
fn base4_bytes_examples() {
    assert_eq!(base4::bytes::encode(&[253, 1]), "mrow mrow mrow mrrp meow meow meow mrrp");
    assert_eq!(
        base4::bytes::decode("mrow mrow mrow mrrp meow meow meow mrrp".to_string()).unwrap(),
        vec![253, 1]
    );
}

#[test]
fn from_and_to_bytes() {
    assert_eq!(from_bytes(vec![9, 1]), "meow meow mreow mrrp meow meow meow mrrp");
    assert_eq!(to_bytes("meow meow mreow mrrp meow meow meow mrrp".to_string()).unwrap(), vec![9, 1]);
    assert_eq!(from_bytes(Vec::new()), "");
    assert_eq!(to_bytes(String::new()).unwrap(), Vec::<u8>::new());
}

#[test]
fn num_to_cat_example() {
    assert_eq!(num_to_cat(9, base4::alphabet(), numeral::char_length(4)).unwrap(), "meow mreow mrrp");
    assert_eq!(num_to_cat(0, base4::alphabet(), 2).unwrap(), "meow meow");
    assert_eq!(num_to_cat(5, base4::alphabet(), 0), Err(CatError::ValueOutOfRange));
    assert_eq!(num_to_cat(0, Vec::new(), 3), Err(CatError::BaseOutOfRange));
}

#[test]
fn cat_to_num_example() {
    let text = strings(&["meow", "mrrp", "mrow", "meow"]);
    assert_eq!(cat_to_num(text, base4::alphabet(), numeral::bytes::char_length(4)).unwrap(), 28);
}

#[test]
fn cat_to_num_errors() {
    let alph = base4::alphabet();
    assert_eq!(cat_to_num(strings(&["meow", "mrrp"]), alph.clone(), 3), Err(CatError::MalformedGroupLength));
    assert_eq!(cat_to_num(strings(&["meow", "nya~", "mrrp"]), alph.clone(), 3), Err(CatError::UnknownToken));
    assert_eq!(cat_to_num(strings(&["meow"]), Vec::new(), 1), Err(CatError::BaseOutOfRange));
    let big = vec!["mrow~".to_string(); 9];
    assert_eq!(cat_to_num(big, numeral::alphabet(), 9), Err(CatError::ValueOutOfRange));
    let top = vec!["mrow~".to_string(); 8];
    assert_eq!(cat_to_num(top, numeral::alphabet(), 8).unwrap(), u32::MAX);
}

#[test]
fn first_match_wins_in_lookup() {
    let alph = strings(&["a", "b", "a"]);
    assert_eq!(cat_to_num(strings(&["a", "b"]), alph, 2).unwrap(), 1);
}

#[test]
fn digit_codec_round_trip() {
    for base in 2..=16u32 {
        let mut alph = numeral::alphabet();
        alph.truncate(base as usize);
        for width in 1..=3u32 {
            let limit = base.pow(width);
            for value in 0..limit {
                let encoded = num_to_cat(value, alph.clone(), width).unwrap();
                let toks: Vec<String> = encoded.split(' ').map(|t| t.to_string()).collect();
                assert_eq!(toks.len(), width as usize);
                assert_eq!(cat_to_num(toks, alph.clone(), width).unwrap(), value);
            }
            assert_eq!(num_to_cat(limit, alph.clone(), width), Err(CatError::ValueOutOfRange));
        }
    }
}

#[test]
fn letter_widths() {
    assert_eq!(numeral::char_length(10), 2);
    assert_eq!(numeral::char_length(4), 3);
    assert_eq!(numeral::char_length(3), 3);
    assert_eq!(numeral::char_length(2), 5);
    assert_eq!(numeral::char_length(27), 1);
    assert_eq!(numeral::char_length(26), 2);
    assert_eq!(numeral::char_length(u32::MAX), 1);
    assert_eq!(numeral::char_length(1), NO_WIDTH);
    assert_eq!(numeral::char_length(0), NO_WIDTH);
    for base in 2..=16u32 {
        let w = numeral::char_length(base);
        assert!(base.pow(w) > 26);
        assert!(base.pow(w - 1) <= 26);
    }
}

#[test]
fn byte_widths() {
    assert_eq!(numeral::bytes::char_length(16), 2);
    assert_eq!(numeral::bytes::char_length(4), 4);
    assert_eq!(numeral::bytes::char_length(2), 8);
    assert_eq!(numeral::bytes::char_length(256), 1);
    assert_eq!(numeral::bytes::char_length(255), 2);
    assert_eq!(numeral::bytes::char_length(1), NO_WIDTH);
    assert_eq!(numeral::width_for(7, 0), 1);
    assert_eq!(numeral::width_for(2, u32::MAX), 32);
}

#[test]
fn byte_255_at_base_16() {
    let width = numeral::bytes::char_length(16);
    assert_eq!(width, 2);
    assert_eq!(num_to_cat(255, numeral::alphabet(), width).unwrap(), "mrow~ mrow~");
    assert_eq!(num_to_cat(256, numeral::alphabet(), width), Err(CatError::ValueOutOfRange));
}

#[test]
fn alphabets_are_prefixes() {
    let full = numeral::alphabet();
    assert_eq!(full.len(), numeral::max_base() as usize);
    assert_eq!(numeral::max_base(), 16);
    assert_eq!(anybase::max_base(), 12);
    let any = anybase::alphabet();
    assert_eq!(any.len(), 12);
    assert_eq!(&full[..12], &any[..]);
    let four = base4::alphabet();
    assert_eq!(four, strings(&["meow", "mrrp", "mreow", "mrow"]));
    for k in 1..full.len() {
        assert_eq!(&full[..k], &full[..k + 1][..k]);
    }
}

#[test]
fn text_round_trip_all_bases() {
    let words = ["", "a", "z", "hello", "abcdefghijklmnopqrstuvwxyz", "the quick brown fox"];
    for base in 2..=anybase::max_base() {
        let width = anybase::char_length(base);
        for w in words.iter() {
            let encoded = anybase::encode(w.to_string(), base, width).unwrap();
            assert_eq!(anybase::decode(encoded, base, width).unwrap(), *w);
        }
    }
}

#[test]
fn bytes_round_trip_all_bases() {
    let all: Vec<u8> = (0..=255).collect();
    for base in 2..=anybase::max_base() {
        let width = numeral::bytes::char_length(base);
        let encoded = anybase::bytes::encode(&all, base, width).unwrap();
        assert_eq!(anybase::bytes::decode(encoded, base, width).unwrap(), all);
        let empty = anybase::bytes::encode(&[], base, width).unwrap();
        assert_eq!(empty, "");
        assert_eq!(anybase::bytes::decode(empty, base, width).unwrap(), Vec::<u8>::new());
    }
}

#[test]
fn uppercase_is_lowercased() {
    assert_eq!(base4::encode("I Love CATS".to_string()), base4::encode("i love cats".to_string()));
}

#[test]
fn encode_errors() {
    assert_eq!(anybase::encode("hi".to_string(), 0, 3), Err(CatError::BaseOutOfRange));
    assert_eq!(anybase::encode("hi".to_string(), 13, 2), Err(CatError::BaseOutOfRange));
    assert_eq!(anybase::encode("hi".to_string(), 1, numeral::char_length(1)), Err(CatError::WidthOverflow));
    assert_eq!(anybase::encode("hi!".to_string(), 4, 3), Err(CatError::InvalidCharacter));
    assert_eq!(anybase::encode("zé".to_string(), 4, 1), Err(CatError::InvalidCharacter));
    assert_eq!(anybase::encode("az".to_string(), 4, 2), Err(CatError::ValueOutOfRange));
    assert_eq!(anybase::encode("ab".to_string(), 4, 2).unwrap(), "meow mrrp meow mreow");
    assert_eq!(anybase::bytes::encode(&[1, 200], 4, 3), Err(CatError::ValueOutOfRange));
    assert_eq!(anybase::bytes::encode(&[1], 13, 3), Err(CatError::BaseOutOfRange));
    assert_eq!(anybase::bytes::encode(&[1], 2, NO_WIDTH), Err(CatError::WidthOverflow));
}

#[test]
fn empty_words_are_kept() {
    let encoded = base4::encode("a  b".to_string()).unwrap();
    assert_eq!(encoded, "meow meow mrrp; ; meow meow mreow");
    assert_eq!(base4::decode(encoded).unwrap(), "a  b");
}

#[test]
fn decode_trims_trailing_spaces() {
    assert_eq!(base4::decode("meow mreow mrrp; ".to_string()).unwrap(), "i");
    assert_eq!(base4::decode(String::new()).unwrap(), "");
}

#[test]
fn decode_errors() {
    assert_eq!(anybase::decode("meow".to_string(), 0, 3), Err(CatError::BaseOutOfRange));
    assert_eq!(anybase::decode("meow".to_string(), 4, NO_WIDTH), Err(CatError::WidthOverflow));
    assert_eq!(base4::decode("meow mreow".to_string()), Err(CatError::MalformedGroupLength));
    assert_eq!(base4::decode("meow mreow nya~".to_string()), Err(CatError::UnknownToken));
    assert_eq!(base4::decode("meow meow meow".to_string()), Err(CatError::InvalidCharacter));
    assert_eq!(base4::decode("mrow mrow mrow".to_string()), Err(CatError::InvalidCharacter));
    assert_eq!(
        base4::decode("meow mreow nya~; meow mreow".to_string()),
        Err(CatError::UnknownToken)
    );
    assert_eq!(anybase::decode("meow".to_string(), 4, 0), Err(CatError::MalformedGroupLength));
    assert_eq!(
        anybase::bytes::decode("mrow mrow mrow mrow mrow".to_string(), 4, 5),
        Err(CatError::ValueOutOfRange)
    );
    assert_eq!(anybase::bytes::decode("meow meow".to_string(), 4, 4), Err(CatError::MalformedGroupLength));
    assert_eq!(anybase::bytes::decode("meow".to_string(), 13, 1), Err(CatError::BaseOutOfRange));
    assert_eq!(anybase::bytes::decode("mrrp".to_string(), 1, 1), Err(CatError::UnknownToken));
}

#[test]
fn split_every_x_groups() {
    let groups = split_every_x("meow meow mrrp meow mreow mrrp", 3).unwrap();
    assert_eq!(
        groups,
        vec![strings(&["meow", "meow", "mrrp"]), strings(&["meow", "mreow", "mrrp"])]
    );
    assert_eq!(split_every_x("", 3).unwrap(), Vec::<Vec<String>>::new());
    assert_eq!(split_every_x("meow meow", 3), Err(CatError::MalformedGroupLength));
    assert_eq!(split_every_x("meow", 0), Err(CatError::MalformedGroupLength));
}
