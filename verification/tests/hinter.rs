use ed255190::hinter::{ComputeHintBuffer, ComputeHintStore, ComputeHintStreamer, Hint};

#[test]
fn store_hands_out_groups_of_eight() {
    let words: Vec<u32> = (0..20).collect();
    let mut store = ComputeHintStore::new(&words);
    assert_eq!(store.next(), [0u32, 1, 2, 3, 4, 5, 6, 7]);
    assert_eq!(store.next(), [8u32, 9, 10, 11, 12, 13, 14, 15]);
}

#[test]
fn buffer_refills_when_empty() {
    let mut buf = ComputeHintBuffer::new(300);
    assert_eq!(buf.refill_len(), Some(256));
    let first: Vec<u32> = (0..256).collect();
    buf.refill(&first);
    assert_eq!(buf.refill_len(), None);
    assert_eq!(buf.take(), [0u32, 1, 2, 3, 4, 5, 6, 7]);
    for _ in 1..32 {
        let _ = buf.take();
    }
    assert_eq!(buf.refill_len(), Some(44));
    let second: Vec<u32> = (1000..1044).collect();
    buf.refill(&second);
    assert_eq!(buf.take(), [1000u32, 1001, 1002, 1003, 1004, 1005, 1006, 1007]);
    for _ in 1..32 {
        let _ = buf.take();
    }
    assert_eq!(buf.refill_len(), Some(0));
}

#[test]
fn hint_outcomes_differ() {
    assert_ne!(Hint::FormatError, Hint::VerificationFailed);
    assert_ne!(Hint::VerificationFailed, Hint::Success);
}

#[test]
fn store_hands_out_the_words_in_order() {
    let words: Vec<u32> = (100..124).collect();
    let mut store = ComputeHintStore::new(&words);
    let mut out: Vec<u32> = Vec::new();
    for _ in 0..3 {
        out.extend_from_slice(&store.next());
    }
    assert_eq!(out, words);
}

fn next_from(buf: &mut ComputeHintBuffer, inp: &[u32], pos: &mut usize) -> [u32; 8] {
    if let Some(n) = buf.refill_len() {
        let words = inp[*pos..*pos + n].to_vec();
        *pos += n;
        buf.refill(&words);
    }
    buf.take()
}

#[test]
fn buffer_hands_out_the_input_in_order_and_reads_in_blocks() {
    let max = 300usize;
    let inp: Vec<u32> = (5000..5400).collect();
    let mut buf = ComputeHintBuffer::new(max);
    let mut pos = 0usize;
    let mut out: Vec<u32> = Vec::new();
    for k in 1..=37usize {
        out.extend_from_slice(&next_from(&mut buf, &inp, &mut pos));
        assert_eq!(pos, std::cmp::min(max, 256 * ((k + 31) / 32)));
    }
    assert_eq!(out, inp[0..8 * 37].to_vec());
}

#[test]
fn buffer_past_its_source_hands_out_stale_words() {
    let inp: Vec<u32> = (1..=8).collect();
    let mut buf = ComputeHintBuffer::new(8);
    let mut pos = 0usize;
    assert_eq!(next_from(&mut buf, &inp, &mut pos), [1u32, 2, 3, 4, 5, 6, 7, 8]);
    assert_eq!(next_from(&mut buf, &inp, &mut pos), [0u32; 8]);
    assert_eq!(pos, 8);
}
