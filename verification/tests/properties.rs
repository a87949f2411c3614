use librualg::string::{aho_corasick, suffix_array, Lcp};
use rand::Rng;

fn naive_lcp(text: &[u8], i: usize, j: usize) -> usize {
    let mut k = 0;
    while i + k < text.len() && j + k < text.len() && text[i + k] == text[j + k] {
        k += 1;
    }
    k
}

#[test]
fn test_suffix_array_permutation() {
    for text in ["ababba$", "bababa$", "mississippi$", "zzzzz$"] {
        let (sa, rank) = suffix_array(text);
        let n = text.len();
        assert_eq!(sa.len(), n);
        assert_eq!(rank.len(), n);
        let mut seen = vec![false; n];
        for &v in &sa {
            assert!(v < n);
            assert!(!seen[v]);
            seen[v] = true;
        }
        assert!(seen.iter().all(|&b| b));
    }
}

#[test]
fn test_suffix_array_sorted() {
    for text in ["ababba$", "bababa$", "mississippi$", "abcabcabc$"] {
        let bytes = text.as_bytes();
        let (sa, _) = suffix_array(text);
        for i in 1..sa.len() {
            assert!(bytes[sa[i - 1]..] <= bytes[sa[i]..]);
        }
    }
}

#[test]
fn test_lcp_matches_direct() {
    for text in ["ababba$", "mississippi$"] {
        let bytes = text.as_bytes();
        let (sa, rank) = suffix_array(text);
        let data = Lcp::build(&sa, &rank, text);
        let n = text.len();
        for i in 0..n {
            for j in 0..n {
                let got = data.lcp(i, j).unwrap();
                if i == j {
                    assert_eq!(got, n - i - 1);
                } else {
                    assert_eq!(got, naive_lcp(bytes, i, j));
                }
                assert_eq!(data.lcp(i, j), data.lcp(j, i));
            }
        }
        assert_eq!(data.lcp(0, n + 3), None);
    }
}

#[test]
fn test_aho_corasick_rebuild() {
    let dict = ["aba", "baba", "cc"];
    let t = "ababababa";
    let first = aho_corasick(&dict, t);
    let second = aho_corasick(&dict, t);
    assert_eq!(first, second);
    assert_eq!(first, vec![vec![0, 2, 4, 6], vec![1, 3, 5], vec![]]);
}

#[test]
fn test_aho_corasick_degenerate() {
    let empty: [&str; 0] = [];
    let res = aho_corasick(&empty, "whatever text");
    assert_eq!(res.len(), 0);

    let dict = ["aba", "zz"];
    let res = aho_corasick(&dict, "");
    assert_eq!(res, vec![vec![], vec![]]);
}

#[test]
fn test_suffix_structures_randomized() {
    let mut rng = rand::thread_rng();
    for _ in 0..40 {
        let n = rng.gen_range(1, 40);
        let mut text = String::new();
        for _ in 0..n {
            let c = (b'a' + (rand::random::<u8>() % 4)) as char;
            text.push(c);
        }
        text.push('$');
        let bytes = text.as_bytes();
        let (sa, rank) = suffix_array(&text);
        for i in 1..sa.len() {
            assert!(bytes[sa[i - 1]..] <= bytes[sa[i]..]);
        }
        let data = Lcp::build(&sa, &rank, &text);
        let m = text.len();
        for i in 0..m {
            for j in 0..m {
                if i != j {
                    assert_eq!(data.lcp(i, j), Some(naive_lcp(bytes, i, j)));
                }
            }
        }
    }
}

#[test]
fn test_suffix_array_rank_inverse() {
    for text in ["ababba$", "bababa$", "mississippi$", "zzzzz$"] {
        let (sa, rank) = suffix_array(text);
        for i in 0..sa.len() {
            assert_eq!(rank[sa[i]], i);
        }
    }
}

#[test]
fn test_distinct_substrings_pairwise() {
    let subs = librualg::string::distinct_substrings("ababba");
    for q1 in 0..subs.len() {
        for q2 in q1 + 1..subs.len() {
            assert_ne!(subs[q1], subs[q2]);
        }
    }
}

#[test]
fn test_suffix_array_deterministic() {
    for text in ["ababba$", "mississippi$"] {
        let first = suffix_array(text);
        let second = suffix_array(text);
        assert_eq!(first, second);
    }
}

#[test]
fn test_distinct_substrings_complete() {
    let text = "ababba";
    let subs = librualg::string::distinct_substrings(text);
    for st in 0..text.len() {
        for en in st + 1..=text.len() {
            assert!(subs.contains(&&text[st..en]));
        }
    }
}
