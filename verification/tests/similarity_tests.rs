use sdkpath::similarity::similarity_counts;

#[test]
fn similarity_identical() {
    let (num, den) = similarity_counts("abc", "abc");
    assert_eq!(num, 1);
    assert_eq!(den, 1);
}

#[test]
fn similarity_overlap() {
    // "abcd" has trigrams {abc, bcd}; "bcde" has {bcd, cde}
    let (num, den) = similarity_counts("abcd", "bcde");
    assert_eq!(num, 1);
    assert_eq!(den, 3);
}

#[test]
fn similarity_disjoint() {
    let (num, den) = similarity_counts("abc", "xyz");
    assert_eq!(num, 0);
    assert_eq!(den, 2);
}

#[test]
fn similarity_short_strings() {
    assert_eq!(similarity_counts("ab", "ab"), (0, 0));
    assert_eq!(similarity_counts("ab", "abc"), (0, 1));
    assert_eq!(similarity_counts("", ""), (0, 0));
}

#[test]
fn similarity_symmetric() {
    let ab = similarity_counts("MacOSX14.0.sdk", "mac");
    let ba = similarity_counts("mac", "MacOSX14.0.sdk");
    assert_eq!(ab, ba);
    let cd = similarity_counts("iPhoneOS17.0.sdk", "OS17");
    let dc = similarity_counts("OS17", "iPhoneOS17.0.sdk");
    assert_eq!(cd, dc);
}

#[test]
fn similarity_repeated_trigrams_counted_once() {
    // "aaaa" has the single distinct trigram {aaa}
    let (num, den) = similarity_counts("aaaa", "aaa");
    assert_eq!(num, 1);
    assert_eq!(den, 1);
}

#[test]
fn similarity_case_sensitive() {
    let (num, _) = similarity_counts("Mac", "mac");
    assert_eq!(num, 0);
}
