//! Putting the result in order for output: the rows of the membership table,
//! the names of the operons, and the ids of the annotation by the part they
//! play.

use vstd::prelude::*;
use vstd::string::*;
use crate::keys::{emission_key, emission_key_of_id, gene_number, gene_number_of_id};
use crate::model::{text_bytes, Transcript};
use crate::order::{arranged, is_stable_order, precedes, stable_order, stable_order_of};
use crate::refine::{has_companion, membership_sound, rows_within, Membership};
use crate::select::within;

verus! {

/// The output key of a row: that of its container's id.
pub open spec fn container_key(table: Seq<Transcript>, row: Membership) -> Option<u64> {
    emission_key(text_bytes(table[row.container as int].id@))
}

/// Every row has an output key.
pub open spec fn all_keyed(table: Seq<Transcript>, rows: Seq<Membership>) -> bool {
    forall|k: int| 0 <= k < rows.len() ==> container_key(table, #[trigger] rows[k]) is Some
}

/// The output key of each row.
pub open spec fn row_keys(table: Seq<Transcript>, rows: Seq<Membership>) -> Seq<u64> {
    Seq::new(rows.len(), |k: int| container_key(table, rows[k]).unwrap())
}

/// The rows in stable ascending order of output key.
pub open spec fn emission_order(table: Seq<Transcript>, rows: Seq<Membership>) -> Seq<Membership> {
    arranged(rows, stable_order_of(row_keys(table, rows)))
}

/// Putting rows in order keeps them what they were: where every operon had
/// two genes with different ids and no gene id stood in two rows, that holds
/// of the rows in their new order too.
pub proof fn lemma_order_keeps_rows(
    table: Seq<Transcript>,
    rows: Seq<Membership>,
    keys: Seq<u64>,
    order: Seq<usize>,
)
    requires
        keys.len() == rows.len() <= usize::MAX,
        is_stable_order(keys, order),
        membership_sound(table, rows),
    ensures
        membership_sound(table, arranged(rows, order)),
{
    let out = arranged(rows, order);
    assert forall|k: int| 0 <= k < out.len() implies has_companion(table, out, k) by {
        assert(has_companion(table, rows, order[k] as int));
        let j = choose|j: int|
            0 <= j < rows.len() && (#[trigger] rows[j]).operon == rows[order[k] as int].operon
                && table[rows[j].gene as int].id@ != table[rows[order[k] as int].gene as int].id@;
        assert(order.contains(j as usize));
        let at = choose|at: int| 0 <= at < order.len() && order[at] == j as usize;
        assert(out[at] == rows[j]);
    }
    assert forall|i: int, j: int| 0 <= i < j < out.len()
        implies table[(#[trigger] out[i]).gene as int].id@
        != table[(#[trigger] out[j]).gene as int].id@ by {
        assert(precedes(keys, order[i] as int, order[j] as int));
        let a = order[i] as int;
        let b = order[j] as int;
        if a < b {
            assert(table[rows[a].gene as int].id@ != table[rows[b].gene as int].id@);
        } else {
            assert(table[rows[b].gene as int].id@ != table[rows[a].gene as int].id@);
        }
    }
}

/// The rows in stable ascending order of the output key of their container's
/// id, or nothing where some container's id has no output key.
///
/// The rows are the same rows: what held of every operon before holds of it
/// after.
pub fn order_rows(table: &Vec<Transcript>, rows: &Vec<Membership>) -> (ordered: Option<
    Vec<Membership>,
>)
    requires
        rows_within(rows@, table@.len()),
    ensures
        ordered is Some <==> all_keyed(table@, rows@),
        ordered matches Some(out) ==> out@ == emission_order(table@, rows@),
        ordered matches Some(out) ==> rows_within(out@, table@.len()),
        ordered matches Some(out) ==> (membership_sound(table@, rows@) ==> membership_sound(
            table@,
            out@,
        )),
{
    let mut keys: Vec<u64> = Vec::new();
    let mut i: usize = 0;
    while i < rows.len()
        invariant
            i <= rows.len(),
            keys.len() == i,
            rows_within(rows@, table@.len()),
            forall|j: int| 0 <= j < i
                ==> container_key(table@, #[trigger] rows@[j]) == Some(keys@[j]),
        decreases rows.len() - i,
    {
        match emission_key_of_id(&table[rows[i].container].id) {
            Some(key) => {
                keys.push(key);
            },
            None => {
                return None;
            },
        }
        i = i + 1;
    }
    assert(keys@ =~= row_keys(table@, rows@));
    let order = stable_order(&keys);
    let mut out: Vec<Membership> = Vec::new();
    let mut k: usize = 0;
    while k < order.len()
        invariant
            k <= order.len(),
            order.len() == rows.len(),
            out.len() == k,
            is_stable_order(keys@, order@),
            keys.len() == rows.len(),
            forall|j: int| 0 <= j < k ==> #[trigger] out[j] == rows[order[j] as int],
        decreases order.len() - k,
    {
        out.push(rows[order[k]]);
        k = k + 1;
    }
    proof {
        assert(out@ =~= arranged(rows@, order@));
        if membership_sound(table@, rows@) {
            assert(rows@.len() == rows.len());
            lemma_order_keeps_rows(table@, rows@, keys@, order@);
        }
    }
    Some(out)
}

/// The character of a decimal digit.
pub open spec fn digit_char(digit: nat) -> char {
    if digit == 0 {
        '0'
    } else if digit == 1 {
        '1'
    } else if digit == 2 {
        '2'
    } else if digit == 3 {
        '3'
    } else if digit == 4 {
        '4'
    } else if digit == 5 {
        '5'
    } else if digit == 6 {
        '6'
    } else if digit == 7 {
        '7'
    } else if digit == 8 {
        '8'
    } else {
        '9'
    }
}

/// A number written in decimal digits.
pub open spec fn decimal_text(n: nat) -> Seq<char>
    decreases n,
{
    if n < 10 {
        seq![digit_char(n)]
    } else {
        decimal_text(n / 10).push(digit_char(n % 10))
    }
}

/// The name of operon number `n`.
pub open spec fn label_text(n: u64) -> Seq<char> {
    "OPRN."@ + decimal_text(n as nat)
}

fn digit_text(digit: u64) -> (text: &'static str)
    requires
        digit < 10,
    ensures
        text@ == seq![digit_char(digit as nat)],
{
    proof {
        reveal_strlit("0");
        reveal_strlit("1");
        reveal_strlit("2");
        reveal_strlit("3");
        reveal_strlit("4");
        reveal_strlit("5");
        reveal_strlit("6");
        reveal_strlit("7");
        reveal_strlit("8");
        reveal_strlit("9");
    }
    let text = if digit == 0 {
        "0"
    } else if digit == 1 {
        "1"
    } else if digit == 2 {
        "2"
    } else if digit == 3 {
        "3"
    } else if digit == 4 {
        "4"
    } else if digit == 5 {
        "5"
    } else if digit == 6 {
        "6"
    } else if digit == 7 {
        "7"
    } else if digit == 8 {
        "8"
    } else {
        "9"
    };
    text
}

fn append_decimal(text: String, n: u64) -> (out: String)
    ensures
        out@ == text@ + decimal_text(n as nat),
    decreases n,
{
    if n < 10 {
        text.concat(digit_text(n))
    } else {
        let head = append_decimal(text, n / 10);
        let out = head.concat(digit_text(n % 10));
        out
    }
}

/// The name of operon number `n`: `OPRN.` and the number.
pub fn operon_label(n: u64) -> (label: String)
    ensures
        label@ == label_text(n),
{
    append_decimal(String::from_str("OPRN."), n)
}

/// The three fields of a row as they are written out: the name of the
/// operon, the id of the container and the id of the gene.
pub fn row_fields(table: &Vec<Transcript>, row: Membership) -> (fields: (String, String, String))
    requires
        row.container < table@.len(),
        row.gene < table@.len(),
    ensures
        fields.0@ == label_text(row.operon),
        fields.1@ == table@[row.container as int].id@,
        fields.2@ == table@[row.gene as int].id@,
{
    (operon_label(row.operon), table[row.container].id.clone(), table[row.gene].id.clone())
}

/// The parts an id can play in the result.
#[derive(Clone, Copy, Debug, PartialEq, Eq, Structural)]
pub enum IdSet {
    /// Ids of containers.
    Containers,
    /// Ids of genes.
    Genes,
    /// Ids of genes that are not also ids of containers.
    OtherGenes,
    /// Ids of neither.
    Clean,
}

/// Some row has a container with the id `id`.
pub open spec fn is_container_id(
    table: Seq<Transcript>,
    rows: Seq<Membership>,
    id: Seq<char>,
) -> bool {
    exists|k: int|
        0 <= k < rows.len() && table[(#[trigger] rows[k]).container as int].id@ == id
}

/// Some row has a gene with the id `id`.
pub open spec fn is_gene_id(table: Seq<Transcript>, rows: Seq<Membership>, id: Seq<char>) -> bool {
    exists|k: int| 0 <= k < rows.len() && table[(#[trigger] rows[k]).gene as int].id@ == id
}

/// The id `id` plays the part `which`.
pub open spec fn in_set(
    table: Seq<Transcript>,
    rows: Seq<Membership>,
    id: Seq<char>,
    which: IdSet,
) -> bool {
    match which {
        IdSet::Containers => is_container_id(table, rows, id),
        IdSet::Genes => is_gene_id(table, rows, id),
        IdSet::OtherGenes => !is_container_id(table, rows, id) && is_gene_id(table, rows, id),
        IdSet::Clean => !is_container_id(table, rows, id) && !is_gene_id(table, rows, id),
    }
}

/// The positions of `known` whose id plays the part `which`, in ascending
/// order.
pub open spec fn playing(
    table: Seq<Transcript>,
    rows: Seq<Membership>,
    known: Seq<String>,
    which: IdSet,
    upto: int,
) -> Seq<usize>
    decreases upto,
{
    if upto <= 0 {
        Seq::empty()
    } else {
        let before = playing(table, rows, known, which, upto - 1);
        if in_set(table, rows, known[upto - 1]@, which) {
            before.push((upto - 1) as usize)
        } else {
            before
        }
    }
}

/// The key an id is ordered by among ids: its gene number, or a key behind
/// all gene numbers where it has none.
pub open spec fn number_key(id: Seq<char>) -> u64 {
    match gene_number(text_bytes(id)) {
        Some(number) => number,
        None => u64::MAX,
    }
}

/// The key of each of the ids at `items`.
pub open spec fn number_keys(known: Seq<String>, items: Seq<usize>) -> Seq<u64> {
    Seq::new(items.len(), |k: int| number_key(known[items[k] as int]@))
}

/// The positions of `known` whose id plays the part `which`, in stable
/// ascending order of gene number, ids without one last.
pub open spec fn ids_playing(
    table: Seq<Transcript>,
    rows: Seq<Membership>,
    known: Seq<String>,
    which: IdSet,
) -> Seq<usize> {
    let items = playing(table, rows, known, which, known.len() as int);
    arranged(items, stable_order_of(number_keys(known, items)))
}

/// Whether some row has a container with the id `id`.
pub fn has_container_id(table: &Vec<Transcript>, rows: &Vec<Membership>, id: &String) -> (r: bool)
    requires
        rows_within(rows@, table@.len()),
    ensures
        r == is_container_id(table@, rows@, id@),
{
    let mut k: usize = 0;
    while k < rows.len()
        invariant
            k <= rows.len(),
            rows_within(rows@, table@.len()),
            forall|j: int| 0 <= j < k ==> table@[(#[trigger] rows@[j]).container as int].id@ != id@,
        decreases rows.len() - k,
    {
        if table[rows[k].container].id == *id {
            return true;
        }
        k = k + 1;
    }
    false
}

/// Whether some row has a gene with the id `id`.
pub fn has_gene_id(table: &Vec<Transcript>, rows: &Vec<Membership>, id: &String) -> (r: bool)
    requires
        rows_within(rows@, table@.len()),
    ensures
        r == is_gene_id(table@, rows@, id@),
{
    let mut k: usize = 0;
    while k < rows.len()
        invariant
            k <= rows.len(),
            rows_within(rows@, table@.len()),
            forall|j: int| 0 <= j < k ==> table@[(#[trigger] rows@[j]).gene as int].id@ != id@,
        decreases rows.len() - k,
    {
        if table[rows[k].gene].id == *id {
            return true;
        }
        k = k + 1;
    }
    false
}

/// Whether the id `id` plays the part `which`.
pub fn plays(
    table: &Vec<Transcript>,
    rows: &Vec<Membership>,
    id: &String,
    which: IdSet,
) -> (r: bool)
    requires
        rows_within(rows@, table@.len()),
    ensures
        r == in_set(table@, rows@, id@, which),
{
    match which {
        IdSet::Containers => has_container_id(table, rows, id),
        IdSet::Genes => has_gene_id(table, rows, id),
        IdSet::OtherGenes => !has_container_id(table, rows, id) && has_gene_id(table, rows, id),
        IdSet::Clean => !has_container_id(table, rows, id) && !has_gene_id(table, rows, id),
    }
}

/// The positions of `known` whose id plays the part `which`, in the order in
/// which their annotation is written out: by ascending gene number, ids with
/// the same gene number in the order of `known`, ids without one last.
pub fn ids_in_set(
    table: &Vec<Transcript>,
    rows: &Vec<Membership>,
    known: &Vec<String>,
    which: IdSet,
) -> (ids: Vec<usize>)
    requires
        rows_within(rows@, table@.len()),
    ensures
        ids@ == ids_playing(table@, rows@, known@, which),
        within(ids@, known@.len()),
{
    let mut items: Vec<usize> = Vec::new();
    let mut keys: Vec<u64> = Vec::new();
    let mut p: usize = 0;
    while p < known.len()
        invariant
            p <= known.len(),
            rows_within(rows@, table@.len()),
            items@ == playing(table@, rows@, known@, which, p as int),
            within(items@, known@.len()),
            keys.len() == items.len(),
            forall|j: int| 0 <= j < keys.len()
                ==> #[trigger] keys@[j] == number_key(known@[items@[j] as int]@),
        decreases known.len() - p,
    {
        if plays(table, rows, &known[p], which) {
            let key = match gene_number_of_id(&known[p]) {
                Some(number) => number,
                None => u64::MAX,
            };
            items.push(p);
            keys.push(key);
        }
        p = p + 1;
    }
    assert(keys@ =~= number_keys(known@, items@));
    let order = stable_order(&keys);
    let mut ids: Vec<usize> = Vec::new();
    let mut k: usize = 0;
    while k < order.len()
        invariant
            k <= order.len(),
            order.len() == items.len(),
            ids.len() == k,
            is_stable_order(keys@, order@),
            keys.len() == items.len(),
            within(items@, known@.len()),
            forall|j: int| 0 <= j < k ==> #[trigger] ids[j] == items[order[j] as int],
        decreases order.len() - k,
    {
        ids.push(items[order[k]]);
        k = k + 1;
    }
    ids
}

} // verus!
