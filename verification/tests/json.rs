use pricefetch::json::{get_bytes, vecchars_to_vecbytes, JsonValue};

#[test]
fn vecchars_to_vecbytes_keeps_ascii() {
    let cs: Vec<char> = "priceUsd".chars().collect();
    assert_eq!(vecchars_to_vecbytes(&cs), b"priceUsd".to_vec());
    assert_eq!(vecchars_to_vecbytes(&vec![]), Vec::<u8>::new());
}

#[test]
fn vecchars_to_vecbytes_cuts_to_low_byte() {
    let cs = vec!['\u{0141}', '\u{20AC}', 'a'];
    assert_eq!(vecchars_to_vecbytes(&cs), vec![0x41, 0xAC, b'a']);
}

#[test]
fn get_bytes_of_a_string() {
    let v = JsonValue::String("8172.26".chars().collect());
    assert_eq!(get_bytes(&v), b"8172.26".to_vec());
}
