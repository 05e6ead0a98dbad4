//! The mask scanner against the scalar one.
use tokie::pretokie::batch::batch_masks;
use tokie::pretokie::config::PretokConfig;
use tokie::pretokie::configs::{
    Cl100kConfig, DeepSeekConfig, Gpt2Config, O200kConfig, QwenConfig, SmolLMConfig, VoyageConfig,
};
use tokie::pretokie::mask::Mask;
use tokie::pretokie::scalar::Core;

fn check<C: PretokConfig>(text: &str) {
    let scalar: Vec<&str> = Core::<C>::new(text).pieces();
    let masked: Vec<&str> = Mask::<C>::new(text).pieces();
    assert_eq!(masked, scalar, "mask vs core mismatch on {text:?}");
    // Draining in bulk must match stepping exactly.
    let bulk: Vec<&str> = Mask::<C>::new(text).for_each_piece();
    assert_eq!(bulk, scalar, "for_each_piece vs core mismatch on {text:?}");
}

fn check_all(text: &str) {
    check::<Gpt2Config>(text);
    check::<Cl100kConfig>(text);
    check::<O200kConfig>(text);
    check::<VoyageConfig>(text);
    check::<SmolLMConfig>(text);
    check::<DeepSeekConfig>(text);
    check::<QwenConfig>(text);
}

/// Wrap short unit vectors in long ASCII padding so the mask path is
/// actually exercised (short inputs are all tail-scalar).
fn check_padded(case: &str) {
    let pad = "The quick brown fox jumps over the lazy dog 1234, and again. ".repeat(3);
    check_all(case);
    check_all(&format!("{pad}{case}"));
    check_all(&format!("{case}{pad}"));
    check_all(&format!("{pad}{case}{pad}"));
    // Shift the case across batch-edge alignments.
    for shift in 60..70 {
        let prefix: String = std::iter::repeat('x').take(shift).collect();
        check_all(&format!("{prefix} {case} {pad}"));
    }
}

#[test]
fn unit_vectors() {
    let cases = [
        "Hello world", "Hello, world!", "test 123", "don't", "I'll", "I've",
        "we're", "DON'T", "O'Toole", "don'ts", "'Toole", "c'mon isn't they'd",
        "x 42", "a\n\nb", "a\n  b", "a  b", "a <b", "a   b", "12345",
        "$hello", "$$hello", " $hello", "a$hello", "a b", "a\nb", "a \nb",
        "CamelCase JSONParser parseJSON XMLHttpRequest", "'hello'",
        "test\t123", "\tword", "a\t\tb", "a \tb", "x\ty",
        "smart”\n\nM", "you…\nA", "”\n \nx", "”…\n\nx", "x«\n\ny", "«abc", "«»",
        "1¹23", "¹²³", "12¹", " ¹", "a ❶b", "x ½", "a\n\n½ cup", "x  ½",
        "values \u{200B}\u{200B}that", "higher \u{AD}partic", "\u{200B}école",
        "a\u{80}\u{94}b", "x «y", "«ab", "a \u{200B}b", "x\u{AD}y",
        "ก\u{E31}น", "આફ્રિકા ખંડ", "l'été", ".\n\n'The",
        "abc\n123", "a 1 b", "12345 67890 a123b",
        "hello/world//x", "a!//b", "x”\n/y",
        "line one\nline two\r\nline three\n\n  indented",
        "\x01\x01!", "a\x01b", "»\x01!x",
        "money $100.99, 50% off!", "e.g. Dr. Smith's co-op",
        "日本語のテキスト and English", "русский текст тоже",
        "a\u{3000}b", "nbsp\u{A0}here", "tab\tnew\nline",
    ];
    for c in cases {
        check_padded(c);
    }
}

#[test]
fn empty_and_tiny() {
    for c in ["", "a", " ", "\n", "'", "é", "1"] {
        check_all(c);
    }
}

#[test]
fn fuzz_differential() {
    // Weighted alphabet spanning every algebra dimension.
    let atoms: &[&str] = &[
        "a", "b", "z", "A", "Z", "Q", "e", "t", "o", "i", "n", "s",
        "0", "1", "9", "5",
        " ", " ", " ", "\t", "\n", "\r", "\n\n",
        ".", ",", "!", "$", "<", "/", "«", "»", "”", "…",
        "'", "'s", "'ll", "'re", "'T",
        "é", "ß", "ก", "\u{E31}", "中", "の", "½", "¹", "❶",
        "\u{200B}", "\u{AD}", "\u{A0}", "\u{3000}", "\x01", "\x0b",
        "🎉", "👍",
    ];
    let mut state = 0x243F6A8885A308D3u64;
    let mut next = || {
        state = state
            .wrapping_mul(6364136223846793005)
            .wrapping_add(1442695040888963407);
        state
    };
    for _ in 0..4000 {
        let len = 40 + (next() % 300) as usize;
        let mut s = String::new();
        for _ in 0..len {
            s.push_str(atoms[(next() % atoms.len() as u64) as usize]);
        }
        check_all(&s);
    }
}

/// The places of a text at which its pieces start, by the scalar scanner.
fn starts<C: PretokConfig>(text: &str) -> Vec<usize> {
    let mut at = 0;
    let mut out = Vec::new();
    for piece in Core::<C>::new(text).pieces() {
        out.push(at);
        at += piece.len();
    }
    out
}

/// The first batch of the text holds nothing bad, and marks the piece starts.
fn first_batch_is_clean<C: PretokConfig>(text: &str) {
    let (usable, bad) = batch_masks::<C>(text, 0);
    assert_eq!(bad, 0, "{text:?}");
    let want: Vec<usize> = starts::<C>(text).into_iter().filter(|s| 0 < *s && *s < 64).collect();
    let got: Vec<usize> = (1..64).filter(|i| usable >> i & 1 == 1).collect();
    assert_eq!(got, want, "{text:?}");
}

#[test]
fn contractions_are_marked_in_batches() {
    let text = "don't we'll they've you're it's I'm he'd O'Neil rock 'n' roll 'tis ''x'' 'LL ok, and then";
    first_batch_is_clean::<Cl100kConfig>(text);
    first_batch_is_clean::<Gpt2Config>(text);
    first_batch_is_clean::<QwenConfig>(text);
    first_batch_is_clean::<DeepSeekConfig>(text);
    // A contraction that lies across the edge of two batches.
    for n in 58..66 {
        let text = format!("{}'ll go on and on, and on until the second batch is full and more than that", "a".repeat(n));
        assert_eq!(
            Mask::<Cl100kConfig>::new(&text).pieces(),
            Core::<Cl100kConfig>::new(&text).pieces()
        );
    }
}

#[test]
fn letters_of_any_script_are_marked_in_batches() {
    let text = "caf\u{e9} na\u{ef}ve \u{4f60}\u{597d}, \u{3b1}\u{3b2}\u{3b3} l'\u{e9}t\u{e9} \u{41f}\u{440}\u{438}\u{432}\u{435}\u{442}\n\u{10400}x and more words to fill the batch";
    first_batch_is_clean::<Cl100kConfig>(text);
    first_batch_is_clean::<Gpt2Config>(text);
    first_batch_is_clean::<VoyageConfig>(text);
    first_batch_is_clean::<SmolLMConfig>(text);
    first_batch_is_clean::<QwenConfig>(text);
}

#[test]
fn punctuation_and_numbers_of_any_script_are_marked_in_batches() {
    let text = "so \u{2014} yes\u{2026} a\u{3002}\u{3001} b \u{201c}c\u{201d} \u{2460}\u{2461} x\u{00b2} and more words to fill the batch up";
    first_batch_is_clean::<Gpt2Config>(text);
    // Numerics in threes are counted by the scanner.
    let (_, bad) = batch_masks::<Cl100kConfig>(text, 0);
    assert!(bad != 0);
    let text = "so \u{2014} yes\u{2026} a\u{3002}\u{3001} b \u{201c}c\u{201d}, (\u{ab}d\u{bb}) and more words to fill the batch";
    first_batch_is_clean::<Cl100kConfig>(text);
    first_batch_is_clean::<QwenConfig>(text);
    first_batch_is_clean::<O200kConfig>(text);
    // A mark that may prefix a word is left to the scanner.
    let text = "a\u{201c}b and more words to fill the batch up to its end, and some more";
    let (_, bad) = batch_masks::<Cl100kConfig>(text, 0);
    assert_eq!(bad & 0b1110, 0b1110);
    // Whitespace beyond ASCII is left to the scanner.
    let text = "a\u{a0}b and more words to fill the batch up to its end, and some more";
    let (_, bad) = batch_masks::<Gpt2Config>(text, 0);
    assert_eq!(bad & 0b110, 0b110);
}

#[test]
fn words_take_their_contractions_in_batches() {
    let text = "don't we'll they've HE'd \u{2014} it's, I'm. can't we're done \u{2026} and more words";
    first_batch_is_clean::<O200kConfig>(text);
    assert_eq!(
        Mask::<O200kConfig>::new(text).pieces()[..5],
        ["don't", " we'll", " they've", " HE'd", " \u{2014}"]
    );
    // What a word could go on with is left to the scanner.
    for tail in ["'ts", "'ll've", "'LL", "'t\u{e9}", "'lLa"] {
        let text = format!("a{tail} and more words to fill the batch up to its end, and some more");
        let (_, bad) = batch_masks::<O200kConfig>(&text, 0);
        assert!(bad != 0, "{text:?}");
        check::<O200kConfig>(&text);
    }
}
