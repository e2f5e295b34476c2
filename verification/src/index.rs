//! The transcripts of a run, grouped by chromosome.

use vstd::prelude::*;
use vstd::string::*;
use vstd::utf8::encode_utf8_decode_utf8;
use crate::model::{text_bytes, Transcript};

verus! {

/// How one chromosome name stands to another.
#[derive(Clone, Copy, Debug, PartialEq, Eq, Structural)]
pub enum NameOrder {
    Before,
    Same,
    After,
}

/// `a` and `b` agree on their first `k` bytes, and there `a` ends or has the
/// smaller byte.
pub open spec fn precedes_at(a: Seq<u8>, b: Seq<u8>, k: int) -> bool {
    &&& 0 <= k <= a.len()
    &&& k < b.len()
    &&& forall|i: int| 0 <= i < k ==> a[i] == b[i]
    &&& (k == a.len() || a[k] < b[k])
}

/// `a` comes before `b` in lexicographic order of bytes.
pub open spec fn bytes_before(a: Seq<u8>, b: Seq<u8>) -> bool {
    exists|k: int| #[trigger] precedes_at(a, b, k)
}

/// Name `a` comes before name `b`.
pub open spec fn name_before(a: Seq<char>, b: Seq<char>) -> bool {
    bytes_before(text_bytes(a), text_bytes(b))
}

/// How name `a` stands to name `b`.
pub open spec fn name_order(a: Seq<char>, b: Seq<char>) -> NameOrder {
    if a == b {
        NameOrder::Same
    } else if name_before(a, b) {
        NameOrder::Before
    } else {
        NameOrder::After
    }
}

/// The order of bytes is transitive.
pub proof fn lemma_before_transitive(a: Seq<u8>, b: Seq<u8>, c: Seq<u8>)
    requires
        bytes_before(a, b),
        bytes_before(b, c),
    ensures
        bytes_before(a, c),
{
    let k1 = choose|k: int| #[trigger] precedes_at(a, b, k);
    let k2 = choose|k: int| #[trigger] precedes_at(b, c, k);
    if k1 <= k2 {
        assert(precedes_at(a, c, k1));
    } else {
        assert(precedes_at(a, c, k2));
    }
}

/// The order of bytes is asymmetric, and so irreflexive.
pub proof fn lemma_before_asymmetric(a: Seq<u8>, b: Seq<u8>)
    requires
        bytes_before(a, b),
    ensures
        !bytes_before(b, a),
        a != b,
{
}

/// How name `a` stands to name `b`, byte by byte.
pub fn compare_names(a: &String, b: &String) -> (r: NameOrder)
    ensures
        r == name_order(a@, b@),
        r == NameOrder::After <==> name_before(b@, a@),
{
    let x = a.as_str().as_bytes();
    let y = b.as_str().as_bytes();
    let mut k: usize = 0;
    while k < x.len() && k < y.len() && x[k] == y[k]
        invariant
            k <= x@.len(),
            k <= y@.len(),
            forall|i: int| 0 <= i < k ==> x@[i] == y@[i],
        decreases x@.len() - k,
    {
        k = k + 1;
    }
    if k == x.len() && k == y.len() {
        proof {
            assert(x@ =~= y@);
            encode_utf8_decode_utf8(a@);
            encode_utf8_decode_utf8(b@);
        }
        NameOrder::Same
    } else if k == x.len() || (k < y.len() && x[k] < y[k]) {
        proof {
            assert(precedes_at(x@, y@, k as int));
        }
        NameOrder::Before
    } else {
        proof {
            assert(precedes_at(y@, x@, k as int));
        }
        NameOrder::After
    }
}

/// One chromosome: its name and the positions of its transcripts.
#[derive(Debug)]
pub struct Chromosome {
    pub name: String,
    pub members: Vec<usize>,
}

/// Names rise from each chromosome to the next.
pub open spec fn names_ascending(chromosomes: Seq<Chromosome>) -> bool {
    forall|i: int, j: int|
        0 <= i < j < chromosomes.len() ==> name_before(
            (#[trigger] chromosomes[i]).name@,
            (#[trigger] chromosomes[j]).name@,
        )
}

/// A chromosome holds at least one transcript, only transcripts that bear its
/// name and stand among the first `upto` of the table, in ascending order of
/// position.
pub open spec fn holds_own(table: Seq<Transcript>, chromosome: Chromosome, upto: int) -> bool {
    &&& chromosome.members@.len() > 0
    &&& forall|i: int|
        0 <= i < chromosome.members@.len() ==> (#[trigger] chromosome.members@[i]) < upto
            && table[chromosome.members@[i] as int].chrom@ == chromosome.name@
    &&& forall|i: int, j: int|
        0 <= i < j < chromosome.members@.len() ==> (#[trigger] chromosome.members@[i])
            < (#[trigger] chromosome.members@[j])
}

/// Some chromosome holds transcript `t`.
pub open spec fn listed(chromosomes: Seq<Chromosome>, t: usize) -> bool {
    exists|k: int|
        0 <= k < chromosomes.len() && (#[trigger] chromosomes[k]).members@.contains(t)
}

/// `chromosomes` index the first `upto` transcripts of `table`: one
/// chromosome for each name that occurs, in ascending order of name, each
/// with the positions of the transcripts that bear its name, in ascending
/// order.
pub open spec fn indexes(table: Seq<Transcript>, chromosomes: Seq<Chromosome>, upto: int) -> bool {
    &&& names_ascending(chromosomes)
    &&& forall|k: int|
        0 <= k < chromosomes.len() ==> holds_own(table, #[trigger] chromosomes[k], upto)
    &&& forall|t: usize| t < upto ==> #[trigger] listed(chromosomes, t)
}

/// The member list of each chromosome.
pub open spec fn member_lists(chromosomes: Seq<Chromosome>) -> Seq<Seq<usize>> {
    Seq::new(chromosomes.len(), |k: int| chromosomes[k].members@)
}

proof fn lemma_names_agree(
    table: Seq<Transcript>,
    a: Seq<Chromosome>,
    b: Seq<Chromosome>,
    upto: int,
    n: int,
)
    requires
        indexes(table, a, upto),
        indexes(table, b, upto),
        0 <= n <= a.len(),
    ensures
        n <= b.len(),
        forall|k: int| 0 <= k < n ==> (#[trigger] a[k]).name@ == b[k].name@,
    decreases n,
{
    if n > 0 {
        lemma_names_agree(table, a, b, upto, n - 1);
        // the name at `i` in `a` stands in `b`, and that at `i` in `b` in `a`;
        // neither stands before `i`, where the two agree, and not both stand
        // behind `i`, or each would come before the other
        let i = n - 1;
        lemma_name_found(table, a, b, upto, i);
        let m = choose|m: int| 0 <= m < b.len() && (#[trigger] b[m]).name@ == a[i].name@;
        if m < i {
            lemma_before_asymmetric(text_bytes(a[m].name@), text_bytes(a[i].name@));
        }
        assert(m >= i);
        lemma_name_found(table, b, a, upto, i);
        let w = choose|w: int| 0 <= w < a.len() && (#[trigger] a[w]).name@ == b[i].name@;
        if w < i {
            lemma_before_asymmetric(text_bytes(b[w].name@), text_bytes(b[i].name@));
        }
        assert(w >= i);
        if m > i && w > i {
            lemma_before_asymmetric(text_bytes(a[i].name@), text_bytes(a[w].name@));
        }
    }
}

proof fn lemma_name_found(
    table: Seq<Transcript>,
    a: Seq<Chromosome>,
    b: Seq<Chromosome>,
    upto: int,
    i: int,
)
    requires
        indexes(table, a, upto),
        indexes(table, b, upto),
        0 <= i < a.len(),
    ensures
        exists|m: int| 0 <= m < b.len() && (#[trigger] b[m]).name@ == a[i].name@,
{
    let t = a[i].members@[0];
    assert(listed(b, t));
}

proof fn lemma_member_found(
    table: Seq<Transcript>,
    a: Seq<Chromosome>,
    b: Seq<Chromosome>,
    upto: int,
    k: int,
    i: int,
)
    requires
        indexes(table, a, upto),
        indexes(table, b, upto),
        0 <= k < a.len(),
        k < b.len(),
        a[k].name@ == b[k].name@,
        0 <= i < a[k].members@.len(),
    ensures
        b[k].members@.contains(a[k].members@[i]),
{
    // the member is listed in `b` under its own name, which is that of `b[k]`
    // and of no other chromosome of `b`
    let t = a[k].members@[i];
    assert(listed(b, t));
    let m = choose|m: int| 0 <= m < b.len() && (#[trigger] b[m]).members@.contains(t);
    assert(m == k);
}

proof fn lemma_members_agree(x: Seq<usize>, y: Seq<usize>, n: int)
    requires
        forall|i: int, j: int| 0 <= i < j < x.len() ==> (#[trigger] x[i]) < (#[trigger] x[j]),
        forall|i: int, j: int| 0 <= i < j < y.len() ==> (#[trigger] y[i]) < (#[trigger] y[j]),
        forall|i: int| 0 <= i < x.len() ==> y.contains(#[trigger] x[i]),
        forall|i: int| 0 <= i < y.len() ==> x.contains(#[trigger] y[i]),
        0 <= n <= x.len(),
    ensures
        n <= y.len(),
        forall|k: int| 0 <= k < n ==> x[k] == y[k],
    decreases n,
{
    if n > 0 {
        lemma_members_agree(x, y, n - 1);
        // the member at `i` in `x` stands in `y`, and that at `i` in `y` in `x`;
        // neither stands before `i`, where the two agree, and not both stand
        // behind `i`, or each were less than the other
        let i = n - 1;
        let m = choose|m: int| 0 <= m < y.len() && y[m] == x[i];
        assert(m >= i);
        let w = choose|w: int| 0 <= w < x.len() && x[w] == y[i];
        assert(w >= i);
        assert(m == i || w == i);
    }
}

/// A table has one index: two lists of chromosomes that index the same
/// transcripts have the same names and the same members, place by place.
pub proof fn lemma_index_unique(
    table: Seq<Transcript>,
    a: Seq<Chromosome>,
    b: Seq<Chromosome>,
    upto: int,
)
    requires
        indexes(table, a, upto),
        indexes(table, b, upto),
    ensures
        a.len() == b.len(),
        forall|k: int| 0 <= k < a.len() ==> (#[trigger] a[k]).name@ == b[k].name@,
        member_lists(a) == member_lists(b),
{
    lemma_names_agree(table, a, b, upto, a.len() as int);
    lemma_names_agree(table, b, a, upto, b.len() as int);
    assert forall|k: int| 0 <= k < a.len() implies (#[trigger] member_lists(a)[k]) == member_lists(
        b,
    )[k] by {
        let x = a[k].members@;
        let y = b[k].members@;
        assert forall|i: int| 0 <= i < x.len() implies y.contains(#[trigger] x[i]) by {
            lemma_member_found(table, a, b, upto, k, i);
        }
        assert forall|i: int| 0 <= i < y.len() implies x.contains(#[trigger] y[i]) by {
            lemma_member_found(table, b, a, upto, k, i);
        }
        lemma_members_agree(x, y, x.len() as int);
        lemma_members_agree(y, x, y.len() as int);
    }
}

/// Where `name` stands among `chromosomes`: the position of the chromosome
/// that bears it, or the position at which it would have to go in.
fn locate(chromosomes: &Vec<Chromosome>, name: &String) -> (found: (usize, bool))
    requires
        names_ascending(chromosomes@),
    ensures
        found.0 <= chromosomes@.len(),
        forall|i: int|
            0 <= i < found.0 ==> name_before((#[trigger] chromosomes@[i]).name@, name@),
        found.1 ==> found.0 < chromosomes@.len() && chromosomes@[found.0 as int].name@ == name@,
        !found.1 ==> forall|i: int|
            found.0 <= i < chromosomes@.len() ==> name_before(
                name@,
                (#[trigger] chromosomes@[i]).name@,
            ),
{
    let mut p: usize = 0;
    while p < chromosomes.len()
        invariant
            p <= chromosomes@.len(),
            names_ascending(chromosomes@),
            forall|i: int| 0 <= i < p ==> name_before((#[trigger] chromosomes@[i]).name@, name@),
        decreases chromosomes.len() - p,
    {
        match compare_names(&chromosomes[p].name, name) {
            NameOrder::Before => {
                p = p + 1;
            },
            NameOrder::Same => {
                return (p, true);
            },
            NameOrder::After => {
                proof {
                    assert forall|i: int| p <= i < chromosomes@.len() implies name_before(
                        name@,
                        (#[trigger] chromosomes@[i]).name@,
                    ) by {
                        if i > p {
                            lemma_before_transitive(
                                text_bytes(name@),
                                text_bytes(chromosomes@[p as int].name@),
                                text_bytes(chromosomes@[i].name@),
                            );
                        }
                    }
                }
                return (p, false);
            },
        }
    }
    (p, false)
}

/// `found` is the position of the first transcript of `table` with the id
/// `id`, or nothing where there is none.
pub open spec fn is_first_with_id(
    table: Seq<Transcript>,
    id: Seq<char>,
    found: Option<usize>,
) -> bool {
    match found {
        Some(k) => k < table.len() && table[k as int].id@ == id && forall|j: int|
            0 <= j < k ==> (#[trigger] table[j]).id@ != id,
        None => forall|j: int| 0 <= j < table.len() ==> (#[trigger] table[j]).id@ != id,
    }
}

/// The transcripts of a run and their grouping by chromosome.
#[derive(Debug)]
pub struct TranscriptIndex {
    transcripts: Vec<Transcript>,
    chromosomes: Vec<Chromosome>,
}

impl TranscriptIndex {
    /// The transcripts, in the order in which they were given.
    pub closed spec fn table(&self) -> Seq<Transcript> {
        self.transcripts@
    }

    /// The chromosomes.
    pub closed spec fn groups(&self) -> Seq<Chromosome> {
        self.chromosomes@
    }

    /// The chromosomes index all the transcripts.
    pub open spec fn well_formed(&self) -> bool {
        indexes(self.table(), self.groups(), self.table().len() as int)
    }

    /// The index of `transcripts`.
    ///
    /// There is one chromosome for each name that occurs, in ascending
    /// byte-wise order of name, and each lists the positions of the
    /// transcripts that bear its name, in ascending order.
    pub fn build(transcripts: Vec<Transcript>) -> (index: TranscriptIndex)
        ensures
            index.well_formed(),
            index.table() == transcripts@,
    {
        let mut chromosomes: Vec<Chromosome> = Vec::new();
        let mut t: usize = 0;
        while t < transcripts.len()
            invariant
                t <= transcripts.len(),
                indexes(transcripts@, chromosomes@, t as int),
            decreases transcripts.len() - t,
        {
            let ghost before = chromosomes@;
            let (p, found) = locate(&chromosomes, &transcripts[t].chrom);
            if found {
                let mut chromosome = chromosomes.remove(p);
                chromosome.members.push(t);
                let ghost grown = chromosome;
                chromosomes.insert(p, chromosome);
                proof {
                    let after = chromosomes@;
                    assert forall|u: usize| u < t + 1 implies #[trigger] listed(after, u) by {
                        if u == t {
                            assert(grown.members@[grown.members@.len() - 1] == t);
                            assert(after[p as int].members@.contains(u));
                        } else {
                            assert(listed(before, u));
                            let k = choose|k: int|
                                0 <= k < before.len()
                                    && (#[trigger] before[k]).members@.contains(u);
                            let i = choose|i: int|
                                0 <= i < before[k].members@.len() && before[k].members@[i] == u;
                            assert(after[k].members@[i] == u);
                        }
                    }
                }
            } else {
                let mut members: Vec<usize> = Vec::new();
                members.push(t);
                let chromosome = Chromosome { name: transcripts[t].chrom.clone(), members };
                let ghost opened = chromosome;
                chromosomes.insert(p, chromosome);
                proof {
                    let after = chromosomes@;
                    assert(opened.members@[0] == t);
                    assert forall|u: usize| u < t + 1 implies #[trigger] listed(after, u) by {
                        if u == t {
                            assert(after[p as int].members@.contains(u));
                        } else {
                            assert(listed(before, u));
                            let k = choose|k: int|
                                0 <= k < before.len()
                                    && (#[trigger] before[k]).members@.contains(u);
                            if k < p {
                                assert(after[k].members@.contains(u));
                            } else {
                                assert(after[k + 1].members@.contains(u));
                            }
                        }
                    }
                }
            }
            t = t + 1;
        }
        TranscriptIndex { transcripts, chromosomes }
    }

    /// The position of the first transcript with the id `id`.
    pub fn position_of(&self, id: &String) -> (found: Option<usize>)
        ensures
            is_first_with_id(self.table(), id@, found),
    {
        let mut k: usize = 0;
        while k < self.transcripts.len()
            invariant
                k <= self.transcripts@.len(),
                forall|j: int| 0 <= j < k ==> (#[trigger] self.transcripts@[j]).id@ != id@,
            decreases self.transcripts.len() - k,
        {
            if self.transcripts[k].id == *id {
                return Some(k);
            }
            k = k + 1;
        }
        None
    }

    /// The transcripts, in the order in which they were given.
    pub fn transcripts(&self) -> (table: &Vec<Transcript>)
        ensures
            table@ == self.table(),
    {
        &self.transcripts
    }

    /// The chromosomes, in ascending order of name.
    pub fn chromosomes(&self) -> (groups: &Vec<Chromosome>)
        ensures
            groups@ == self.groups(),
    {
        &self.chromosomes
    }
}

} // verus!
