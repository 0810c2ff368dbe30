//! Feature hashing: text is scanned into ASCII n-gram, codepoint and
//! script-class features, each of which is hashed into a fixed number of
//! buckets.
use vstd::multiset::Multiset;
use vstd::prelude::*;

verus! {

broadcast use vstd::seq_lib::group_to_multiset_ensures;

/// One feature seen in a text.
#[derive(Copy, Clone, Debug, PartialEq, Eq, Structural)]
pub enum Feature {
    /// A window of up to four lowercased ASCII codes, most recent in the low byte.
    AsciiNGram(u32),
    /// A non-ASCII character, hashed by its coarse codepoint block.
    Unicode(char),
    /// A non-ASCII character, hashed by its script class.
    UnicodeClass(char),
}

pub const SEED: u32 = 3_242_157_231u32;

pub const BIGRAM_MASK: u32 = 0xffff;

pub const TRIGRAM_MASK: u32 = 0xff_ffff;

pub const HASH_MULTIPLIER: u32 = 0x5bd1_e995;

/// The 32-bit avalanche mix of a key under a seed.
pub open spec fn mix_spec(k: u32, seed: u32) -> u32 {
    let k1 = k.wrapping_mul(HASH_MULTIPLIER);
    let k2 = k1 ^ (k1 >> 24u32);
    let k3 = k2.wrapping_mul(HASH_MULTIPLIER);
    let h1 = seed.wrapping_mul(HASH_MULTIPLIER) ^ k3;
    let h2 = h1 ^ (h1 >> 13u32);
    let h3 = h2.wrapping_mul(HASH_MULTIPLIER);
    h3 ^ (h3 >> 15u32)
}

/// Hashes a key under a seed.
pub fn murmurhash2(k: u32, seed: u32) -> (r: u32)
    ensures
        r == mix_spec(k, seed),
{
    let mut k = k.wrapping_mul(HASH_MULTIPLIER);
    k = k ^ (k >> 24u32);
    k = k.wrapping_mul(HASH_MULTIPLIER);
    let mut h: u32 = seed.wrapping_mul(HASH_MULTIPLIER);
    h = h ^ k;
    h = h ^ (h >> 13u32);
    h = h.wrapping_mul(HASH_MULTIPLIER);
    h ^ (h >> 15u32)
}

/// Sorted boundaries of the codepoint ranges that the script classes tell apart:
/// accented Latin letters and marks, then Japanese punctuation, hiragana,
/// katakana, CJK ideographs and half-width katakana (start and end of each).
pub open spec fn class_boundaries() -> Seq<u32> {
    seq![
        160u32, 161, 171, 172, 173, 174, 187, 192, 196, 199, 200, 201, 202, 205, 214, 220, 223,
        224, 225, 226, 227, 228, 231, 232, 233, 234, 235, 236, 237, 238, 239, 242, 243, 244,
        245, 246, 249, 250, 251, 252, 333, 339,
        0x3000, 0x303f, 0x3040, 0x309f, 0x30a0, 0x30ff, 0x4e00, 0x9faf, 0xff61, 0xff90,
    ]
}

/// How many entries of `s` lie strictly below `x`.
pub open spec fn count_below(s: Seq<u32>, x: u32) -> nat
    decreases s.len(),
{
    if s.len() == 0 {
        0
    } else {
        count_below(s.drop_last(), x) + if s.last() < x { 1nat } else { 0nat }
    }
}

/// The script class of a character: its rank among the class boundaries.
pub open spec fn class_of(chr: char) -> nat {
    count_below(class_boundaries(), chr as u32)
}

/// The script class of a character.
pub fn classify_codepoint(chr: char) -> (r: u32)
    ensures
        r == class_of(chr),
        r <= 52,
{
    let table: [u32; 52] = [
        160, 161, 171, 172, 173, 174, 187, 192, 196, 199, 200, 201, 202, 205, 214, 220, 223,
        224, 225, 226, 227, 228, 231, 232, 233, 234, 235, 236, 237, 238, 239, 242, 243, 244,
        245, 246, 249, 250, 251, 252, 333, 339,
        0x3000, 0x303f, 0x3040, 0x309f, 0x30a0, 0x30ff, 0x4e00, 0x9faf, 0xff61, 0xff90,
    ];
    assert(table@ =~= class_boundaries());
    let code = chr as u32;
    let mut rank: u32 = 0;
    let mut i: usize = 0;
    while i < 52
        invariant
            i <= 52,
            table@ == class_boundaries(),
            code == chr as u32,
            rank == count_below(table@.take(i as int), code),
            rank <= i,
        decreases 52 - i,
    {
        assert(table@.take(i + 1).drop_last() =~= table@.take(i as int));
        if table[i] < code {
            rank = rank + 1;
        }
        i = i + 1;
    }
    assert(table@.take(52) =~= table@);
    rank
}

/// The key that a feature is hashed from, and the seed of its kind.
pub open spec fn hash_spec(f: Feature) -> u32 {
    match f {
        Feature::AsciiNGram(ngram) => mix_spec(ngram, SEED),
        Feature::Unicode(chr) => mix_spec(((chr as u32) / 128) as u32, SEED ^ 2),
        Feature::UnicodeClass(chr) => mix_spec(class_of(chr) as u32, SEED ^ 4),
    }
}

impl Feature {
    /// The 32-bit hash of a feature; each kind hashes under its own seed.
    pub fn to_hash(&self) -> (r: u32)
        ensures
            r == hash_spec(*self),
    {
        match self {
            Feature::AsciiNGram(ngram) => murmurhash2(*ngram, SEED),
            Feature::Unicode(chr) => murmurhash2(*chr as u32 / 128, SEED ^ 2),
            Feature::UnicodeClass(chr) => murmurhash2(classify_codepoint(*chr), SEED ^ 4),
        }
    }
}


/// The lowercased code of a character (ASCII capitals map to small letters).
pub open spec fn lower_code(c: char) -> u32 {
    if 'A' <= c && c <= 'Z' {
        (c as u32 + 32) as u32
    } else {
        c as u32
    }
}

pub open spec fn is_ascii_char(c: char) -> bool {
    c < '\u{80}'
}

/// ASCII letters and digits: the characters that continue a word.
pub open spec fn is_word_char(c: char) -> bool {
    ('0' <= c && c <= '9') || ('A' <= c && c <= 'Z') || ('a' <= c && c <= 'z')
}

/// The window blank that starts and restarts a word.
pub const BLANK: u32 = 32;

/// Features emitted for one character, given the window and the run length
/// (how many window characters are available, capped at three).
pub open spec fn step_features(c: char, window: u32, run: u32) -> Seq<Feature> {
    if !is_ascii_char(c) {
        seq![Feature::Unicode(c), Feature::UnicodeClass(c)]
    } else {
        let w = (window << 8u32) | lower_code(c);
        if run == 0 {
            seq![]
        } else if run == 1 {
            seq![Feature::AsciiNGram(w & BIGRAM_MASK)]
        } else if run == 2 {
            seq![Feature::AsciiNGram(w & BIGRAM_MASK), Feature::AsciiNGram(w & TRIGRAM_MASK)]
        } else {
            seq![
                Feature::AsciiNGram(w & BIGRAM_MASK),
                Feature::AsciiNGram(w & TRIGRAM_MASK),
                Feature::AsciiNGram(w),
            ]
        }
    }
}

/// The window after one character.
pub open spec fn step_window(c: char, window: u32) -> u32 {
    if !is_ascii_char(c) {
        window
    } else if !is_word_char(c) {
        BLANK
    } else {
        (window << 8u32) | lower_code(c)
    }
}

/// The run length after one character.
pub open spec fn step_run(c: char, run: u32) -> u32 {
    if !is_ascii_char(c) {
        0
    } else if run >= 3 {
        3
    } else {
        (run + 1) as u32
    }
}

/// Features of the characters `s`, scanned from the given window and run length.
pub open spec fn tokens_from(s: Seq<char>, window: u32, run: u32) -> Seq<Feature>
    decreases s.len(),
{
    if s.len() == 0 {
        seq![]
    } else {
        step_features(s[0], window, run) + tokens_from(
            s.drop_first(),
            step_window(s[0], window),
            step_run(s[0], run),
        )
    }
}

/// Features of a whole text: the scan starts on a blank window with one
/// character available.
pub open spec fn tokens_of(s: Seq<char>) -> Seq<Feature> {
    tokens_from(s, BLANK, 1)
}

/// Scans one character: appends its features to `out` and returns the next
/// window and run length.
fn scan_char(c: char, window: u32, run: u32, out: &mut Vec<Feature>) -> (r: (u32, u32))
    requires
        run <= 3,
    ensures
        final(out)@ == old(out)@ + step_features(c, window, run),
        r.0 == step_window(c, window),
        r.1 == step_run(c, run),
        r.1 <= 3,
{
    if c >= '\u{80}' {
        out.push(Feature::Unicode(c));
        out.push(Feature::UnicodeClass(c));
        assert(final(out)@ =~= old(out)@ + step_features(c, window, run));
        return (window, 0);
    }
    let code: u32 = if 'A' <= c && c <= 'Z' { c as u32 + 32 } else { c as u32 };
    let w = (window << 8u32) | code;
    let mut next_run: u32 = run;
    if run == 0 {
        next_run = 1;
    } else if run == 1 {
        out.push(Feature::AsciiNGram(w & BIGRAM_MASK));
        next_run = 2;
    } else if run == 2 {
        out.push(Feature::AsciiNGram(w & BIGRAM_MASK));
        out.push(Feature::AsciiNGram(w & TRIGRAM_MASK));
        next_run = 3;
    } else {
        out.push(Feature::AsciiNGram(w & BIGRAM_MASK));
        out.push(Feature::AsciiNGram(w & TRIGRAM_MASK));
        out.push(Feature::AsciiNGram(w));
    }
    assert(final(out)@ =~= old(out)@ + step_features(c, window, run));
    let word = ('0' <= c && c <= '9') || ('A' <= c && c <= 'Z') || ('a' <= c && c <= 'z');
    if word {
        (w, next_run)
    } else {
        (BLANK, next_run)
    }
}

/// Every feature of `text`, in the order the scan meets them.
pub fn emit_tokens(text: &str) -> (r: Vec<Feature>)
    ensures
        r@ == tokens_of(text@),
{
    let mut out: Vec<Feature> = Vec::new();
    let mut prev: u32 = BLANK;
    let mut run: u32 = 1;
    let ghost s = text@;
    assert(s.skip(0) =~= s);
    for chr in it: text.chars()
        invariant
            it.seq() == s,
            s == text@,
            run <= 3,
            out@ + tokens_from(s.skip(it.index() as int), prev, run) == tokens_of(s),
    {
        let ghost i = it.index() as int;
        let ghost old_out = out@;
        let ghost w0 = prev;
        let ghost r0 = run;
        proof {
            assert(s.skip(i)[0] == chr);
            assert(s.skip(i).drop_first() =~= s.skip(i + 1));
        }
        let (w, r) = scan_char(chr, prev, run, &mut out);
        prev = w;
        run = r;
        proof {
            assert(out@ + tokens_from(s.skip(i + 1), prev, run) =~= old_out + tokens_from(
                s.skip(i),
                w0,
                r0,
            ));
        }
    }
    proof {
        assert(s.skip(s.len() as int) =~= Seq::<char>::empty());
        assert(out@ =~= out@ + tokens_from(s.skip(s.len() as int), prev, run));
    }
    out
}

/// The bucket of a feature in a space of `dimension` buckets.
pub open spec fn bucket_of(f: Feature, dimension: u32) -> u32
    recommends
        dimension > 0,
{
    hash_spec(f) % dimension
}

/// The bucket of each feature of a text, in scan order.
pub open spec fn buckets_of(s: Seq<char>, dimension: u32) -> Seq<u32> {
    tokens_of(s).map_values(|f: Feature| bucket_of(f, dimension))
}

/// How often each bucket is hit by the features of a text.
pub open spec fn bucket_counts(s: Seq<char>, dimension: u32) -> Multiset<u32> {
    buckets_of(s, dimension).to_multiset()
}

/// `entries` lists each bucket of `m` once, with its positive count.
pub open spec fn represents(entries: Seq<(u32, usize)>, m: Multiset<u32>) -> bool {
    &&& forall|k: int|
        0 <= k < entries.len() ==> entries[k].1 > 0 && entries[k].1 == m.count(entries[k].0)
    &&& forall|k1: int, k2: int|
        0 <= k1 < entries.len() && 0 <= k2 < entries.len() && k1 != k2 ==> entries[k1].0
            != entries[k2].0
    &&& forall|b: u32| m.count(b) > 0 ==> exists|k: int| 0 <= k < entries.len() && entries[k].0 == b
}

/// The raw bucket counts of a text: every bucket that some feature hits,
/// with the number of hits, and the number of features emitted.
pub struct BucketCounts {
    pub entries: Vec<(u32, usize)>,
    pub total: usize,
}

/// Records one more hit of bucket `b` in `entries`.
fn add_hit(
    entries: &mut Vec<(u32, usize)>,
    b: u32,
    dimension: u32,
    n: usize,
    Ghost(m): Ghost<Multiset<u32>>,
)
    requires
        represents(old(entries)@, m),
        b < dimension,
        n < usize::MAX,
        forall|k: int|
            0 <= k < old(entries)@.len() ==> old(entries)@[k].0 < dimension && old(entries)@[k].1
                <= n,
    ensures
        represents(final(entries)@, m.insert(b)),
        forall|k: int|
            0 <= k < final(entries)@.len() ==> final(entries)@[k].0 < dimension
                && final(entries)@[k].1 <= n + 1,
{
    let ghost after = m.insert(b);
    let len = entries.len();
    let mut at: usize = len;
    let mut j: usize = 0;
    while j < len
        invariant
            j <= len,
            len == entries@.len(),
            at == len ==> forall|q: int| 0 <= q < j ==> entries@[q].0 != b,
            at < len ==> entries@[at as int].0 == b,
            at <= len,
        decreases len - j,
    {
        if at == len && entries[j].0 == b {
            at = j;
        }
        j = j + 1;
    }
    if at < len {
        let c = entries[at].1;
        entries.set(at, (b, c + 1));
    } else {
        entries.push((b, 1));
    }
    proof {
        assert forall|c: u32| after.count(c) > 0 implies exists|k: int|
            0 <= k < entries@.len() && entries@[k].0 == c by {
            if c == b {
                if at < len {
                    assert(entries@[at as int].0 == b);
                } else {
                    assert(entries@[len as int].0 == b);
                }
            } else {
                let k = choose|k: int| 0 <= k < old(entries)@.len() && old(entries)@[k].0 == c;
                assert(entries@[k].0 == c);
            }
        }
    }
}

/// Counts, per bucket of a `dimension`-bucket space, the features of `text`.
pub fn count_buckets(text: &str, dimension: u32) -> (r: BucketCounts)
    requires
        dimension > 0,
    ensures
        represents(r.entries@, bucket_counts(text@, dimension)),
        forall|k: int| 0 <= k < r.entries@.len() ==> r.entries@[k].0 < dimension,
        r.total == tokens_of(text@).len(),
{
    let feats = emit_tokens(text);
    let ghost bs = buckets_of(text@, dimension);
    let mut entries: Vec<(u32, usize)> = Vec::new();
    let mut i: usize = 0;
    assert(bs.take(0) =~= Seq::<u32>::empty());

    while i < feats.len()
        invariant
            i <= feats.len(),
            feats@ == tokens_of(text@),
            bs == buckets_of(text@, dimension),
            dimension > 0,
            represents(entries@, bs.take(i as int).to_multiset()),
            forall|k: int|
                0 <= k < entries@.len() ==> entries@[k].0 < dimension && entries@[k].1 <= i,
        decreases feats.len() - i,
    {
        let b = feats[i].to_hash() % dimension;
        assert(b == bs[i as int]);
        assert(bs.take(i + 1) =~= bs.take(i as int).push(b));
        assert(bs.take(i + 1).to_multiset() =~= bs.take(i as int).to_multiset().insert(b));
        add_hit(&mut entries, b, dimension, i, Ghost(bs.take(i as int).to_multiset()));
        i = i + 1;
    }
    assert(bs.take(feats.len() as int) =~= bs);
    BucketCounts { entries, total: feats.len() }
}

/// Every bucket that a feature falls into lies below the dimension.
pub proof fn lemma_bucket_in_range(f: Feature, dimension: u32)
    requires
        dimension > 0,
    ensures
        bucket_of(f, dimension) < dimension,
{
}

/// Counting the buckets of a text is deterministic: any two results for the
/// same text and dimension hold the same (bucket, count) pairs.
pub proof fn lemma_counts_deterministic(
    text: Seq<char>,
    dimension: u32,
    a: Seq<(u32, usize)>,
    b: Seq<(u32, usize)>,
)
    requires
        represents(a, bucket_counts(text, dimension)),
        represents(b, bucket_counts(text, dimension)),
    ensures
        a.to_set() == b.to_set(),
{
    let m = bucket_counts(text, dimension);
    assert forall|p: (u32, usize)| a.to_set().contains(p) implies b.to_set().contains(p) by {
        let k = choose|k: int| 0 <= k < a.len() && a[k] == p;
        let k2 = choose|k2: int| 0 <= k2 < b.len() && b[k2].0 == p.0;
        assert(b[k2] == p);
    }
    assert forall|p: (u32, usize)| b.to_set().contains(p) implies a.to_set().contains(p) by {
        let k = choose|k: int| 0 <= k < b.len() && b[k] == p;
        let k2 = choose|k2: int| 0 <= k2 < a.len() && a[k2].0 == p.0;
        assert(a[k2] == p);
    }
    assert(a.to_set() =~= b.to_set());
}

} // verus!
