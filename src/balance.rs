//! Per-language balancing of a training corpus: every language that has
//! examples ends up with the same number of them, by sampling without
//! replacement where there are enough and by duplication where there are not.
use rand::rngs::StdRng;
use rand::seq::SliceRandom;
use rand::Rng;
use vstd::multiset::Multiset;
use vstd::prelude::*;

verus! {

broadcast use vstd::seq_lib::group_to_multiset_ensures;

/// One labelled sentence of the corpus.
#[derive(Clone, Debug)]
pub struct TrainingExample {
    pub id: u32,
    pub lan_code: String,
    pub sentence: String,
}

impl TrainingExample {
    /// A field-by-field copy.
    pub fn duplicate(&self) -> (r: TrainingExample)
        ensures
            r == *self,
    {
        TrainingExample { id: self.id, lan_code: self.lan_code.clone(), sentence: self.sentence.clone() }
    }
}

#[verifier::external_type_specification]
#[verifier::external_body]
pub struct ExStdRng(StdRng);

/// Relies on rand's `Rng::random_range` over `0..n`: a value of the range,
/// which it requires to be non-empty.
#[verifier::external_body]
fn random_below(rng: &mut StdRng, n: usize) -> (r: usize)
    requires
        n > 0,
    ensures
        r < n,
{
    rng.random_range(0..n)
}

/// Relies on rand's `SliceRandom::shuffle`: the items are permuted in place.
#[verifier::external_body]
fn shuffle_examples(v: &mut Vec<TrainingExample>, rng: &mut StdRng)
    ensures
        final(v)@.to_multiset() == old(v)@.to_multiset(),
{
    v.shuffle(rng)
}

/// How many examples of `s` carry the language code `c`.
pub open spec fn count_code(s: Seq<TrainingExample>, c: Seq<char>) -> nat
    decreases s.len(),
{
    if s.len() == 0 {
        0
    } else {
        count_code(s.drop_last(), c) + if s.last().lan_code@ == c { 1nat } else { 0nat }
    }
}

/// Whether `c` is one of the codes of `codes`.
pub open spec fn lists_code(codes: Seq<String>, c: Seq<char>) -> bool {
    exists|i: int| 0 <= i < codes.len() && codes[i]@ == c
}

/// No two codes of `codes` are equal.
pub open spec fn distinct_codes(codes: Seq<String>) -> bool {
    forall|i: int, j: int| 0 <= i < codes.len() && 0 <= j < codes.len() && i != j ==> codes[i]@ != codes[j]@
}

/// How many codes of `codes` occur in `data`.
pub open spec fn present_count(codes: Seq<String>, data: Seq<TrainingExample>) -> nat
    decreases codes.len(),
{
    if codes.len() == 0 {
        0
    } else {
        present_count(codes.drop_last(), data) + if count_code(data, codes.last()@) > 0 {
            1nat
        } else {
            0nat
        }
    }
}

/// The number of examples of code `c` that balancing to `target` per
/// language leaves.
pub open spec fn balanced_count(
    codes: Seq<String>,
    data: Seq<TrainingExample>,
    target: nat,
    c: Seq<char>,
) -> nat {
    if lists_code(codes, c) && count_code(data, c) > 0 {
        target
    } else {
        0
    }
}

/// Counting examples of a code distributes over concatenation.
pub proof fn lemma_count_add(a: Seq<TrainingExample>, b: Seq<TrainingExample>, c: Seq<char>)
    ensures
        count_code(a + b, c) == count_code(a, c) + count_code(b, c),
    decreases b.len(),
{
    if b.len() == 0 {
        assert(a + b =~= a);
    } else {
        assert((a + b).drop_last() =~= a + b.drop_last());
        lemma_count_add(a, b.drop_last(), c);
    }
}

proof fn lemma_count_uniform(s: Seq<TrainingExample>, c: Seq<char>, d: Seq<char>)
    requires
        forall|k: int| 0 <= k < s.len() ==> s[k].lan_code@ == c,
    ensures
        count_code(s, d) == if d == c { s.len() } else { 0 },
    decreases s.len(),
{
    if s.len() > 0 {
        lemma_count_uniform(s.drop_last(), c, d);
    }
}

proof fn lemma_count_absent(s: Seq<TrainingExample>, c: Seq<char>)
    requires
        forall|k: int| 0 <= k < s.len() ==> s[k].lan_code@ != c,
    ensures
        count_code(s, c) == 0,
    decreases s.len(),
{
    if s.len() > 0 {
        lemma_count_absent(s.drop_last(), c);
    }
}

/// Permuting a sequence keeps the number of examples of every code.
pub proof fn lemma_count_perm(a: Seq<TrainingExample>, b: Seq<TrainingExample>, c: Seq<char>)
    requires
        a.to_multiset() == b.to_multiset(),
    ensures
        count_code(a, c) == count_code(b, c),
    decreases a.len(),
{
    if a.len() == 0 {
        assert(a.to_multiset().len() == 0);
        assert(b.to_multiset().len() == b.len());
        assert(b.len() == 0);
    } else {
        let x = a.last();
        let a1 = a.drop_last();
        assert(a1.push(x) =~= a);
        assert(b.to_multiset().count(x) > 0);
        assert(b.contains(x));
        let j = choose|j: int| 0 <= j < b.len() && b[j] == x;
        let b1 = b.remove(j);
        assert(b1.to_multiset() =~= b.to_multiset().remove(x));
        assert(a.to_multiset() =~= a1.to_multiset().insert(x));
        assert(a1.to_multiset() =~= b1.to_multiset());
        lemma_count_perm(a1, b1, c);
        assert(b =~= b.take(j) + seq![x] + b.skip(j + 1));
        assert(b1 =~= b.take(j) + b.skip(j + 1));
        lemma_count_add(b.take(j) + seq![x], b.skip(j + 1), c);
        lemma_count_add(b.take(j), seq![x], c);
        lemma_count_add(b.take(j), b.skip(j + 1), c);
        assert(seq![x].drop_last() =~= Seq::<TrainingExample>::empty());
        assert(count_code(Seq::<TrainingExample>::empty(), c) == 0);
        assert(seq![x].last() == x);
        assert(count_code(seq![x], c) == if x.lan_code@ == c { 1nat } else { 0nat });
        assert(count_code(a, c) == count_code(a1, c) + if x.lan_code@ == c { 1nat } else { 0nat });
        assert(count_code(b, c) == count_code(b1, c) + if x.lan_code@ == c { 1nat } else { 0nat });
    }
}

proof fn lemma_present_le(codes: Seq<String>, data: Seq<TrainingExample>)
    ensures
        present_count(codes, data) <= codes.len(),
    decreases codes.len(),
{
    if codes.len() > 0 {
        lemma_present_le(codes.drop_last(), data);
    }
}

/// Every example of `s` has code `c` and is one of `data`.
pub open spec fn drawn_from(s: Seq<TrainingExample>, data: Seq<TrainingExample>, c: Seq<char>) -> bool {
    forall|k: int| 0 <= k < s.len() ==> s[k].lan_code@ == c && data.contains(#[trigger] s[k])
}

/// The examples of `data` with code `code`, in their order in `data`.
fn examples_of(data: &Vec<TrainingExample>, code: &String) -> (r: Vec<TrainingExample>)
    ensures
        r@.len() == count_code(data@, code@),
        drawn_from(r@, data@, code@),
        forall|e: TrainingExample|
            #[trigger] r@.to_multiset().count(e) == if e.lan_code@ == code@ {
                data@.to_multiset().count(e)
            } else {
                0
            },
{
    let mut group: Vec<TrainingExample> = Vec::new();
    let mut i: usize = 0;
    assert(data@.take(0) =~= Seq::<TrainingExample>::empty());
    while i < data.len()
        invariant
            i <= data.len(),
            group@.len() == count_code(data@.take(i as int), code@),
            drawn_from(group@, data@, code@),
            forall|e: TrainingExample|
                #[trigger] group@.to_multiset().count(e) == if e.lan_code@ == code@ {
                    data@.take(i as int).to_multiset().count(e)
                } else {
                    0
                },
        decreases data.len() - i,
    {
        assert(data@.take(i + 1).drop_last() =~= data@.take(i as int));
        assert(data@.take(i + 1) =~= data@.take(i as int).push(data@[i as int]));
        if data[i].lan_code == *code {
            group.push(data[i].duplicate());
            assert(data@.contains(data@[i as int]));
        }
        i = i + 1;
    }
    assert(data@.take(data.len() as int) =~= data@);
    group
}

/// Brings a non-empty group of one language to exactly `target` examples:
/// a random subset without replacement when it holds at least `target`,
/// otherwise all of it followed by random duplicates of its members.
fn resample_group(
    group: Vec<TrainingExample>,
    target: usize,
    rng: &mut StdRng,
    Ghost(data): Ghost<Seq<TrainingExample>>,
    Ghost(c): Ghost<Seq<char>>,
) -> (r: Vec<TrainingExample>)
    requires
        group@.len() > 0,
        drawn_from(group@, data, c),
    ensures
        r@.len() == target,
        drawn_from(r@, data, c),
        group@.len() >= target ==> forall|e: TrainingExample|
            #[trigger] r@.to_multiset().count(e) <= group@.to_multiset().count(e),
        group@.len() < target ==> forall|e: TrainingExample|
            #[trigger] r@.to_multiset().count(e) >= group@.to_multiset().count(e),
{
    let ghost original = group@;
    let mut group = group;
    let n = group.len();
    if n >= target {
        let ghost before = group@;
        shuffle_examples(&mut group, rng);
        proof {
            assert(group@.to_multiset().len() == before.to_multiset().len());
            assert forall|k: int| 0 <= k < group@.len() implies group@[k].lan_code@ == c
                && data.contains(#[trigger] group@[k]) by {
                assert(group@.to_multiset().count(group@[k]) > 0);
                assert(before.contains(group@[k]));
            }
        }
        let ghost shuffled = group@;
        group.truncate(target);
        proof {
            assert(shuffled =~= group@ + shuffled.skip(target as int));
            vstd::seq_lib::lemma_multiset_commutative(group@, shuffled.skip(target as int));
        }
    } else {
        while group.len() < target
            invariant
                0 < n <= group@.len(),
                group@.len() <= target,
                drawn_from(group@, data, c),
                forall|e: TrainingExample|
                    #[trigger] group@.to_multiset().count(e) >= original.to_multiset().count(e),
            decreases target - group@.len(),
        {
            let k = random_below(rng, n);
            let e = group[k].duplicate();
            group.push(e);
        }
    }
    group
}

/// Balances `data` to `samples_per_language` examples for each code of
/// `language_codes` that occurs in it; codes that do not occur contribute
/// nothing. The result is shuffled and holds only examples of `data`.
pub fn create_balanced_dataset(
    language_codes: &Vec<String>,
    samples_per_language: usize,
    data: &Vec<TrainingExample>,
    rng: &mut StdRng,
) -> (r: Vec<TrainingExample>)
    requires
        distinct_codes(language_codes@),
        samples_per_language * language_codes@.len() <= usize::MAX,
    ensures
        forall|c: Seq<char>|
            count_code(r@, c) == balanced_count(
                language_codes@,
                data@,
                samples_per_language as nat,
                c,
            ),
        r@.len() == samples_per_language * present_count(language_codes@, data@),
        forall|k: int| 0 <= k < r@.len() ==> data@.contains(#[trigger] r@[k]),
        forall|e: TrainingExample|
            lists_code(language_codes@, e.lan_code@) && count_code(data@, e.lan_code@)
                >= samples_per_language ==> #[trigger] r@.to_multiset().count(e)
                <= data@.to_multiset().count(e),
        forall|e: TrainingExample|
            lists_code(language_codes@, e.lan_code@) && count_code(data@, e.lan_code@)
                < samples_per_language ==> #[trigger] r@.to_multiset().count(e)
                >= data@.to_multiset().count(e),
{
    let ghost codes = language_codes@;
    let ghost target = samples_per_language as nat;
    let mut out: Vec<TrainingExample> = Vec::new();
    let mut i: usize = 0;
    assert(codes.take(0) =~= Seq::<String>::empty());
    assert(present_count(codes.take(0), data@) == 0);
    assert(target * 0 == 0);
    while i < language_codes.len()
        invariant
            i <= codes.len(),
            codes == language_codes@,
            target == samples_per_language,
            distinct_codes(codes),
            samples_per_language * codes.len() <= usize::MAX,
            out@.len() == target * present_count(codes.take(i as int), data@),
            forall|c: Seq<char>|
                count_code(out@, c) == balanced_count(codes.take(i as int), data@, target, c),
            forall|k: int| 0 <= k < out@.len() ==> data@.contains(#[trigger] out@[k]),
            forall|e: TrainingExample|
                !lists_code(codes.take(i as int), e.lan_code@) ==> #[trigger] out@.to_multiset().count(e) == 0,
            forall|e: TrainingExample|
                lists_code(codes.take(i as int), e.lan_code@) && count_code(data@, e.lan_code@)
                    >= target ==> #[trigger] out@.to_multiset().count(e)
                    <= data@.to_multiset().count(e),
            forall|e: TrainingExample|
                lists_code(codes.take(i as int), e.lan_code@) && count_code(data@, e.lan_code@)
                    < target ==> #[trigger] out@.to_multiset().count(e)
                    >= data@.to_multiset().count(e),
        decreases codes.len() - i,
    {
        let ghost prev = out@;
        let ghost ci = codes[i as int]@;
        assert(codes.take(i + 1).drop_last() =~= codes.take(i as int));
        assert(codes.take(i + 1).last() == codes[i as int]);
        let group = examples_of(data, &language_codes[i]);
        let ghost grp = group@;
        let ghost mut blk = Seq::<TrainingExample>::empty();
        proof {
            lemma_present_le(codes.take(i as int), data@);
        }
        if group.len() > 0 {
            let mut block = resample_group(group, samples_per_language, rng, Ghost(data@), Ghost(ci));
            proof {
                blk = block@;
            }
            proof {
                assert(target * present_count(codes.take(i as int), data@) + target <= target
                    * codes.len()) by (nonlinear_arith)
                    requires
                        present_count(codes.take(i as int), data@) + 1 <= codes.len(),
                ;
                assert(target * present_count(codes.take(i as int), data@) + target == target * (
                present_count(codes.take(i as int), data@) + 1)) by (nonlinear_arith);
            }
            out.append(&mut block);
        }
        proof {
            assert(!lists_code(codes.take(i as int), ci)) by {
                if lists_code(codes.take(i as int), ci) {
                    let q = choose|q: int| 0 <= q < i && #[trigger] codes.take(i as int)[q]@ == ci;
                    assert(codes[q]@ == codes[i as int]@);
                }
            }
            assert(out@ =~= prev + blk);
            vstd::seq_lib::lemma_multiset_commutative(prev, blk);
            assert forall|e: TrainingExample| e.lan_code@ != ci implies #[trigger] blk.to_multiset().count(e) == 0 by {
                if blk.to_multiset().count(e) > 0 {
                    assert(blk.contains(e));
                }
            }
            assert forall|e: TrainingExample|
                lists_code(codes.take(i + 1), e.lan_code@) == (lists_code(codes.take(i as int), e.lan_code@) || e.lan_code@ == ci) by {
                if lists_code(codes.take(i + 1), e.lan_code@) {
                    let q = choose|q: int| 0 <= q < i + 1 && #[trigger] codes.take(i + 1)[q]@ == e.lan_code@;
                    if q < i {
                        assert(codes.take(i as int)[q]@ == e.lan_code@);
                    }
                }
                if lists_code(codes.take(i as int), e.lan_code@) {
                    let q = choose|q: int| 0 <= q < i && #[trigger] codes.take(i as int)[q]@ == e.lan_code@;
                    assert(codes.take(i + 1)[q]@ == e.lan_code@);
                }
                if e.lan_code@ == ci {
                    assert(codes.take(i + 1)[i as int]@ == ci);
                }
            }
            assert forall|e: TrainingExample| e.lan_code@ == ci implies #[trigger] grp.to_multiset().count(e) == data@.to_multiset().count(e) by {
            }
        }
        proof {
            assert forall|c: Seq<char>|
                count_code(out@, c) == balanced_count(codes.take(i + 1), data@, target, c) by {
                if c == ci {
                    assert(lists_code(codes.take(i + 1), c)) by {
                        assert(codes.take(i + 1)[i as int]@ == c);
                    }
                    assert(!lists_code(codes.take(i as int), c)) by {
                        if lists_code(codes.take(i as int), c) {
                            let q = choose|q: int| 0 <= q < i && #[trigger] codes.take(i as int)[q]@ == c;
                            assert(codes[q]@ == codes[i as int]@);
                        }
                    }
                } else {
                    assert(lists_code(codes.take(i + 1), c) == lists_code(codes.take(i as int), c)) by {
                        if lists_code(codes.take(i + 1), c) {
                            let q = choose|q: int| 0 <= q < i + 1 && #[trigger] codes.take(i + 1)[q]@ == c;
                            assert(codes.take(i as int)[q]@ == c);
                        }
                        if lists_code(codes.take(i as int), c) {
                            let q = choose|q: int| 0 <= q < i && #[trigger] codes.take(i as int)[q]@ == c;
                            assert(codes.take(i + 1)[q]@ == c);
                        }
                    }
                }
                if out@.len() != prev.len() {
                    let block = out@.subrange(prev.len() as int, out@.len() as int);
                    assert(out@ =~= prev + block);
                    lemma_count_add(prev, block, c);
                    lemma_count_uniform(block, ci, c);
                }
            }
        }
        i = i + 1;
    }
    assert(codes.take(codes.len() as int) =~= codes);
    let ghost unshuffled = out@;
    shuffle_examples(&mut out, rng);
    proof {
        assert(out@.to_multiset().len() == unshuffled.to_multiset().len());
        assert forall|c: Seq<char>|
            count_code(out@, c) == balanced_count(codes, data@, target, c) by {
            lemma_count_perm(unshuffled, out@, c);
        }
        assert forall|k: int| 0 <= k < out@.len() implies data@.contains(#[trigger] out@[k]) by {
            assert(out@.to_multiset().count(out@[k]) > 0);
            assert(unshuffled.contains(out@[k]));
        }
    }
    out
}

/// `r` lists each code of `data` once, with its number of examples.
pub open spec fn tallies(r: Seq<(String, usize)>, data: Seq<TrainingExample>) -> bool {
    &&& forall|k: int| 0 <= k < r.len() ==> r[k].1 > 0 && r[k].1 == count_code(data, r[k].0@)
    &&& forall|k1: int, k2: int|
        0 <= k1 < r.len() && 0 <= k2 < r.len() && k1 != k2 ==> r[k1].0@ != r[k2].0@
    &&& forall|i: int|
        0 <= i < data.len() ==> exists|k: int| 0 <= k < r.len() && r[k].0@ == (#[trigger] data[i]).lan_code@
}

/// Every language code of `data` once, in order of first appearance, with
/// its number of examples.
pub fn language_counts(data: &Vec<TrainingExample>) -> (r: Vec<(String, usize)>)
    ensures
        tallies(r@, data@),
{
    let mut r: Vec<(String, usize)> = Vec::new();
    let mut i: usize = 0;
    while i < data.len()
        invariant
            i <= data@.len(),
            tallies(r@, data@.take(i as int)),
            forall|k: int| 0 <= k < r@.len() ==> r@[k].1 <= i,
        decreases data.len() - i,
    {
        let ghost before = data@.take(i as int);
        let ghost after = data@.take(i + 1);
        let ghost old_r = r@;
        let code = &data[i].lan_code;
        assert(after.drop_last() =~= before);
        assert(after.last() == data@[i as int]);
        let len = r.len();
        let mut at: usize = len;
        let mut j: usize = 0;
        while j < len
            invariant
                j <= len,
                len == r@.len(),
                at == len ==> forall|q: int| 0 <= q < j ==> r@[q].0@ != code@,
                at < len ==> r@[at as int].0@ == code@,
                at <= len,
            decreases len - j,
        {
            if at == len && r[j].0 == *code {
                at = j;
            }
            j = j + 1;
        }
        if at < len {
            let c = r[at].1;
            let name = r[at].0.clone();
            r.set(at, (name, c + 1));
        } else {
            r.push((code.clone(), 1));
        }
        proof {
            assert forall|k: int| 0 <= k < r@.len() implies r@[k].1 > 0 && r@[k].1 == count_code(
                after,
                r@[k].0@,
            ) by {
                assert(count_code(after, r@[k].0@) == count_code(before, r@[k].0@) + if code@
                    == r@[k].0@ {
                    1nat
                } else {
                    0nat
                });
                if k < len && k != at {
                    assert(r@[k] == old_r[k]);
                    assert(old_r[k].0@ != code@);
                } else if at == len {
                    assert forall|q: int| 0 <= q < before.len() implies before[q].lan_code@
                        != code@ by {
                        let w = choose|w: int| 0 <= w < old_r.len() && old_r[w].0@ == (#[trigger] before[q]).lan_code@;
                    }
                    lemma_count_absent(before, code@);
                }
            }
            assert forall|k1: int, k2: int|
                0 <= k1 < r@.len() && 0 <= k2 < r@.len() && k1 != k2 implies r@[k1].0@ != r@[k2].0@ by {
                if k1 < len && k2 < len {
                    assert(r@[k1].0@ == old_r[k1].0@);
                    assert(r@[k2].0@ == old_r[k2].0@);
                }
            }
            assert forall|q: int| 0 <= q < after.len() implies exists|k: int|
                0 <= k < r@.len() && r@[k].0@ == (#[trigger] after[q]).lan_code@ by {
                if q < i {
                    assert(after[q] == before[q]);
                    let k = choose|k: int| 0 <= k < old_r.len() && old_r[k].0@ == (#[trigger] before[q]).lan_code@;
                    assert(r@[k].0@ == old_r[k].0@);
                } else if at < len {
                    assert(r@[at as int].0@ == code@);
                } else {
                    assert(r@[len as int].0@ == code@);
                }
            }
        }
        i = i + 1;
    }
    assert(data@.take(data.len() as int) =~= data@);
    r
}

} // verus!
