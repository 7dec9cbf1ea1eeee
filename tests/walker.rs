use lsp_text::RopeExt;
use ropey::Rope;

fn long_text() -> String {
    let mut s = String::new();
    for i in 0..2000 {
        s.push_str(&format!("line {} \u{e9}\u{1F600}\u{4e2d}\n", i));
    }
    s
}

#[test]
fn reads_in_sequence_reproduce_the_document() {
    let text = long_text();
    let rope = Rope::from_str(&text);
    assert!(rope.chunks().count() > 1);
    let mut walker = rope.chunk_walker(0);
    let mut out: Vec<u8> = Vec::new();
    let mut offset = 0usize;
    while offset < text.len() {
        let bytes = walker.callback_adapter(offset as u32, None);
        assert!(!bytes.is_empty());
        offset += bytes.len();
        out.extend_from_slice(&bytes);
    }
    assert_eq!(out, text.as_bytes());
    assert!(walker.callback_adapter(text.len() as u32, None).is_empty());
}

#[test]
fn backward_seek_matches_a_fresh_walker() {
    let text = long_text();
    let k = 1234usize;
    let mut advanced = Rope::from_str(&text).chunk_walker(0);
    let _ = advanced.callback_adapter((text.len() - 10) as u32, None);
    let _ = advanced.callback_adapter(text.len() as u32, None);
    let again = advanced.callback_adapter(k as u32, None);
    let mut fresh = Rope::from_str(&text).chunk_walker(0);
    let first = fresh.callback_adapter(k as u32, None);
    assert_eq!(again, first);
    assert!(!again.is_empty());
    assert_eq!(&again[..], &text.as_bytes()[k..k + again.len()]);
}

#[test]
fn walker_started_in_the_middle() {
    let text = long_text();
    let mut walker = Rope::from_str(&text).chunk_walker(5000);
    let at_zero = walker.callback_adapter(0, None);
    assert_eq!(&at_zero[..], &text.as_bytes()[..at_zero.len()]);
    let at_end = walker.callback_adapter(text.len() as u32, None);
    assert!(at_end.is_empty());
}

#[test]
fn bounded_reads() {
    let mut walker = Rope::from_str("hello").chunk_walker(0);
    assert_eq!(walker.callback_adapter(1, Some(3)), b"el".to_vec());
    assert_eq!(walker.callback_adapter(1, None), b"ello".to_vec());
    assert_eq!(walker.callback_adapter(3, Some(2)), Vec::<u8>::new());
    assert_eq!(walker.callback_adapter(2, Some(100)), b"llo".to_vec());
    assert_eq!(walker.callback_adapter(5, None), Vec::<u8>::new());
}

#[test]
fn empty_document() {
    let mut walker = Rope::from_str("").chunk_walker(0);
    assert!(walker.callback_adapter(0, None).is_empty());
}

#[test]
fn walkers_built_at_different_offsets_agree() {
    let text = long_text();
    let rope = Rope::from_str(&text);
    let mut late = rope.clone().chunk_walker(text.len() - 1);
    let mut early = rope.chunk_walker(0);
    for k in [0usize, 17, 999, 1024, 4096, 20000, text.len() - 1, text.len()] {
        let a = late.callback_adapter(k as u32, None);
        let b = early.callback_adapter(k as u32, None);
        assert_eq!(a, b);
        assert_eq!(&a[..], &text.as_bytes()[k..k + a.len()]);
    }
}
