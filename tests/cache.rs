use dictate::codec::{decode_entry, decode_records, encode_entry, encode_records};
use dictate::entry::{Definition, Entry, Meaning, Phonetic};
use dictate::lookup::{complete_lookup, plan_lookup, FetchError, LookupError, Step};
use dictate::store::{Cache, CacheError, StoreWrite};

fn simple(word: &str, brief: &str) -> Entry {
    Entry {
        word: word.to_string(),
        phonetics: vec![],
        meanings: vec![Meaning {
            part_of_speech: "noun".to_string(),
            definitions: vec![Definition { brief: brief.to_string(), example: None }],
            synonyms: vec![],
            antonyms: vec![],
        }],
    }
}

fn full() -> Entry {
    Entry {
        word: "café".to_string(),
        phonetics: vec![
            Phonetic { text: None },
            Phonetic { text: Some("/kæˈfeɪ/".to_string()) },
        ],
        meanings: vec![
            Meaning {
                part_of_speech: "noun".to_string(),
                definitions: vec![
                    Definition {
                        brief: "A small restaurant.".to_string(),
                        example: Some("We met at the café.".to_string()),
                    },
                    Definition { brief: "Coffee.".to_string(), example: None },
                ],
                synonyms: vec!["bistro".to_string(), "coffeehouse".to_string()],
                antonyms: vec!["home".to_string()],
            },
            Meaning {
                part_of_speech: "verb".to_string(),
                definitions: vec![],
                synonyms: vec![],
                antonyms: vec![],
            },
        ],
    }
}

fn same(a: &[Entry], b: &[Entry]) -> bool {
    format!("{:?}", a) == format!("{:?}", b)
}

fn apply(file: &mut Vec<u8>, w: &StoreWrite) {
    file.truncate(w.offset);
    file.extend_from_slice(&w.bytes);
}

#[test]
fn round_trip_empty_parts() {
    let e = Entry { word: "x".to_string(), phonetics: vec![], meanings: vec![] };
    let back = decode_entry(&encode_entry(&e)).unwrap();
    assert!(same(&[back], &[e]));
}

#[test]
fn round_trip_every_field() {
    let e = full();
    let bytes = encode_entry(&e);
    let back = decode_entry(&bytes).unwrap();
    assert!(same(&[back.clone()], &[e]));
    assert_eq!(encode_entry(&back), bytes);
}

#[test]
fn encoding_exact_bytes() {
    let e = Entry {
        word: "é".to_string(),
        phonetics: vec![Phonetic { text: None }],
        meanings: vec![],
    };
    let expected: Vec<u8> = vec![
        2, 0, 0, 0, 0, 0, 0, 0, 0xC3, 0xA9, // word
        1, 0, 0, 0, 0, 0, 0, 0, 0, // one absent phonetic
        0, 0, 0, 0, 0, 0, 0, 0, // no meanings
    ];
    assert_eq!(encode_entry(&e), expected);
}

#[test]
fn decode_rejects_invalid_utf8_and_trailing_bytes() {
    let bad: Vec<u8> = vec![1, 0, 0, 0, 0, 0, 0, 0, 0xFF, 0, 0, 0, 0, 0, 0, 0, 0, 0, 0, 0, 0, 0, 0, 0, 0];
    assert!(decode_entry(&bad).is_none());
    let mut long = encode_entry(&simple("a", "b"));
    long.push(0);
    assert!(decode_entry(&long).is_none());
    assert!(decode_entry(&vec![]).is_none());
}

#[test]
fn miss_then_hit() {
    let mut cache = Cache::open(&vec![]).unwrap();
    assert!(cache.lookup_word("lamp").is_empty());
    let e = simple("lamp", "A device that gives light.");
    cache.append(&vec![e.clone()]).unwrap();
    let first = cache.lookup_word("lamp");
    assert!(same(&first, &[e.clone()]));
    let second = cache.lookup_word("lamp");
    assert!(same(&second, &[e]));
}

#[test]
fn non_unique_key_keeps_both_in_order() {
    let mut cache = Cache::open(&vec![]).unwrap();
    let e1 = simple("bank", "The land beside a river.");
    let e2 = simple("bank", "A place that keeps money.");
    cache.append(&vec![e1.clone(), e2.clone()]).unwrap();
    let found = cache.lookup_word("bank");
    assert_eq!(found.len(), 2);
    assert!(same(&found, &[e1, e2]));
}

#[test]
fn exact_duplicates_are_kept() {
    let mut cache = Cache::open(&vec![]).unwrap();
    let e = simple("echo", "A repeated sound.");
    cache.append(&vec![e.clone()]).unwrap();
    cache.append(&vec![e.clone()]).unwrap();
    assert_eq!(cache.lookup_word("echo").len(), 2);
}

#[test]
fn lookup_is_case_sensitive() {
    let mut cache = Cache::open(&vec![]).unwrap();
    cache.append(&vec![simple("Rose", "A name.")]).unwrap();
    assert!(cache.lookup_word("rose").is_empty());
    assert_eq!(cache.lookup_word("Rose").len(), 1);
}

#[test]
fn clean_wipes_fully() {
    let mut file: Vec<u8> = vec![];
    let mut cache = Cache::open(&file).unwrap();
    let w = cache
        .append(&vec![simple("one", "1"), simple("two", "2"), simple("one", "uno")])
        .unwrap();
    apply(&mut file, &w);
    cache.clean();
    file.clear();
    assert!(cache.lookup_word("one").is_empty());
    assert!(cache.lookup_word("two").is_empty());
    assert_eq!(cache.valid_len(), 0);
    let reopened = Cache::open(&file).unwrap();
    assert!(reopened.lookup_word("one").is_empty());
}

#[test]
fn empty_append_is_no_op() {
    let file = encode_records(&vec![simple("a", "b")]);
    let mut cache = Cache::open(&file).unwrap();
    let w = cache.append(&vec![]).unwrap();
    assert_eq!(w.offset, file.len());
    assert!(w.bytes.is_empty());
    assert_eq!(cache.lookup_word("a").len(), 1);
}

#[test]
fn appended_records_survive_reopen() {
    let mut file: Vec<u8> = vec![];
    let mut cache = Cache::open(&file).unwrap();
    let e = full();
    let w = cache.append(&vec![e.clone()]).unwrap();
    assert_eq!(w.offset, 0);
    apply(&mut file, &w);
    let reopened = Cache::open(&file).unwrap();
    assert!(same(&reopened.lookup_word("café"), &[e]));
    assert_eq!(reopened.valid_len(), file.len());
}

#[test]
fn truncated_tail_is_ignored() {
    let records = vec![simple("a", "first"), simple("b", "second"), simple("a", "third")];
    let good = encode_records(&records);
    let next = encode_records(&vec![simple("c", "fourth")]);
    for cut in [1usize, 7, 8, 9, next.len() - 1] {
        let mut file = good.clone();
        file.extend_from_slice(&next[..cut]);
        let cache = Cache::open(&file).unwrap();
        assert_eq!(cache.valid_len(), good.len());
        let found = cache.lookup_word("a");
        assert!(same(&found, &[records[0].clone(), records[2].clone()]));
        assert_eq!(cache.lookup_word("b").len(), 1);
        assert!(cache.lookup_word("c").is_empty());
    }
}

#[test]
fn append_after_torn_tail_overwrites_it() {
    let good = encode_records(&vec![simple("a", "first")]);
    let mut file = good.clone();
    file.extend_from_slice(&[5, 0, 0]);
    let mut cache = Cache::open(&file).unwrap();
    let w = cache.append(&vec![simple("b", "second")]).unwrap();
    assert_eq!(w.offset, good.len());
    apply(&mut file, &w);
    let reopened = Cache::open(&file).unwrap();
    assert_eq!(reopened.lookup_word("a").len(), 1);
    assert_eq!(reopened.lookup_word("b").len(), 1);
}

#[test]
fn corrupt_record_is_an_error() {
    let mut file = encode_records(&vec![simple("a", "first")]);
    file.extend_from_slice(&[2, 0, 0, 0, 0, 0, 0, 0, 9, 9]);
    assert!(matches!(Cache::open(&file), Err(CacheError::Corruption)));
    assert!(decode_records(&file).is_none());
}

#[test]
fn decode_records_reports_end() {
    let file = encode_records(&vec![simple("a", "b"), simple("c", "d")]);
    let (v, end) = decode_records(&file).unwrap();
    assert_eq!(v.len(), 2);
    assert_eq!(end, file.len());
}

#[test]
fn failed_fetch_leaves_store_untouched() {
    let file = encode_records(&vec![simple("a", "first")]);
    let mut cache = Cache::open(&file).unwrap();
    assert!(matches!(plan_lookup(&cache, "zzz"), Step::Fetch));
    let outcome = complete_lookup(&mut cache, Err(FetchError { message: "offline".to_string() }));
    match outcome {
        Err(LookupError::Fetch(f)) => assert_eq!(f.message, "offline"),
        _ => panic!("the fetch error should be passed on"),
    }
    assert_eq!(cache.valid_len(), file.len());
    assert!(cache.lookup_word("zzz").is_empty());
    assert_eq!(cache.lookup_word("a").len(), 1);
}

#[test]
fn hello_scenario() {
    let mut file: Vec<u8> = vec![];
    let mut cache = Cache::open(&file).unwrap();
    assert!(cache.lookup_word("hello").is_empty());
    let hello = Entry {
        word: "hello".to_string(),
        phonetics: vec![],
        meanings: vec![Meaning {
            part_of_speech: "exclamation".to_string(),
            definitions: vec![Definition { brief: "used as a greeting".to_string(), example: None }],
            synonyms: vec![],
            antonyms: vec![],
        }],
    };
    assert!(matches!(plan_lookup(&cache, "hello"), Step::Fetch));
    let (found, w) = complete_lookup(&mut cache, Ok(vec![hello.clone()])).unwrap();
    apply(&mut file, &w);
    assert!(same(&found, &[hello.clone()]));
    assert!(same(&cache.lookup_word("hello"), &[hello.clone()]));
    match plan_lookup(&cache, "hello") {
        Step::Hit(v) => assert!(same(&v, &[hello.clone()])),
        Step::Fetch => panic!("the second lookup should hit the store"),
    }
    let reopened = Cache::open(&file).unwrap();
    assert!(same(&reopened.lookup_word("hello"), &[hello]));
}

#[test]
fn fetch_of_nothing_appends_nothing() {
    let mut cache = Cache::open(&vec![]).unwrap();
    let (found, w) = complete_lookup(&mut cache, Ok(vec![])).unwrap();
    assert!(found.is_empty());
    assert!(w.bytes.is_empty());
    assert!(matches!(plan_lookup(&cache, "void"), Step::Fetch));
}

#[test]
fn pronunciation_skips_absent() {
    assert_eq!(full().pronunciation(), Some("/kæˈfeɪ/".to_string()));
    assert_eq!(simple("a", "b").pronunciation(), None);
}
