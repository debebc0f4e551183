//! The court record: pieces of evidence, found by alias or by full name and
//! kept in display order.

use crate::text::same_text;
use vstd::prelude::*;
use vstd::std_specs::iter::IteratorSpec;

verus! {

/// The mathematical value of an [`Evidence`].
pub struct EvidenceModel {
    pub fullname: Seq<char>,
    pub alias: Seq<char>,
    pub description: Seq<char>,
    pub weight: u8,
}

/// A piece of evidence in the court record.
#[derive(Debug)]
pub struct Evidence {
    fullname: String,
    alias: String,
    description: String,
    weight: u8,
}

impl View for Evidence {
    type V = EvidenceModel;

    closed spec fn view(&self) -> EvidenceModel {
        EvidenceModel {
            fullname: self.fullname@,
            alias: self.alias@,
            description: self.description@,
            weight: self.weight,
        }
    }
}

impl Evidence {
    /// Builds a piece of evidence from its four attributes.
    pub fn new(fullname: String, alias: String, description: String, weight: u8) -> (evidence:
        Evidence)
        ensures
            evidence@ == (EvidenceModel {
                fullname: fullname@,
                alias: alias@,
                description: description@,
                weight,
            }),
    {
        Evidence { fullname, alias, description, weight }
    }

    /// Full name of the piece, such as "Revolver".
    pub fn get_fullname(&self) -> (fullname: &str)
        ensures
            fullname@ == self@.fullname,
    {
        self.fullname.as_str()
    }

    /// Short name for use at the terminal, such as "rev".
    pub fn get_alias(&self) -> (alias: &str)
        ensures
            alias@ == self@.alias,
    {
        self.alias.as_str()
    }

    /// What the piece is and why it matters.
    pub fn get_description(&self) -> (description: &str)
        ensures
            description@ == self@.description,
    {
        self.description.as_str()
    }

    /// Place of the piece in the court record: smaller goes first.
    pub fn get_weight(&self) -> (weight: u8)
        ensures
            weight == self@.weight,
    {
        self.weight
    }

    /// Whether `name` is the alias or the full name of the piece. The match
    /// is exact and case-sensitive.
    pub fn is_named(&self, name: &str) -> (named: bool)
        ensures
            named == (name@ == self@.alias || name@ == self@.fullname),
    {
        same_text(name, self.alias.as_str()) || same_text(name, self.fullname.as_str())
    }
}

/// The records that a vector of [`Evidence`] stands for.
pub open spec fn record_models(records: Seq<Evidence>) -> Seq<EvidenceModel> {
    records.map_values(|e: Evidence| e@)
}

/// Whether the record at `j` has the alias of a record before it.
pub open spec fn alias_repeats_at(records: Seq<EvidenceModel>, j: int) -> bool {
    0 <= j < records.len() && exists|i: int| 0 <= i < j && (#[trigger] records[i]).alias
        == records[j].alias
}

/// Whether the record at `j` has the full name of a record before it.
pub open spec fn fullname_repeats_at(records: Seq<EvidenceModel>, j: int) -> bool {
    0 <= j < records.len() && exists|i: int| 0 <= i < j && (#[trigger] records[i]).fullname
        == records[j].fullname
}

/// No two records share an alias.
pub open spec fn distinct_aliases(records: Seq<EvidenceModel>) -> bool {
    forall|i: int, j: int|
        0 <= i < j < records.len() ==> (#[trigger] records[i]).alias != (
        #[trigger] records[j]).alias
}

/// No two records share a full name.
pub open spec fn distinct_fullnames(records: Seq<EvidenceModel>) -> bool {
    forall|i: int, j: int|
        0 <= i < j < records.len() ==> (#[trigger] records[i]).fullname != (
        #[trigger] records[j]).fullname
}

/// No two records share an alias, and no two a full name.
pub open spec fn distinct_keys(records: Seq<EvidenceModel>) -> bool {
    distinct_aliases(records) && distinct_fullnames(records)
}

/// Whether `i` is the first position of `records` that holds `alias`.
pub open spec fn is_first_with_alias(records: Seq<EvidenceModel>, alias: Seq<char>, i: int) -> bool {
    &&& 0 <= i < records.len()
    &&& records[i].alias == alias
    &&& forall|j: int| 0 <= j < i ==> (#[trigger] records[j]).alias != alias
}

/// Whether `i` is the first position of `records` that holds `fullname`.
pub open spec fn is_first_with_fullname(
    records: Seq<EvidenceModel>,
    fullname: Seq<char>,
    i: int,
) -> bool {
    &&& 0 <= i < records.len()
    &&& records[i].fullname == fullname
    &&& forall|j: int| 0 <= j < i ==> (#[trigger] records[j]).fullname != fullname
}

/// Whether the weights of `records` never fall from one record to the next.
pub open spec fn sorted_by_weight(records: Seq<EvidenceModel>) -> bool {
    forall|i: int, j: int|
        0 <= i < j < records.len() ==> (#[trigger] records[i]).weight <= (
        #[trigger] records[j]).weight
}

/// The records of weight `weight`, in the order in which `records` holds them.
pub open spec fn of_weight(records: Seq<EvidenceModel>, weight: u8) -> Seq<EvidenceModel> {
    records.filter(|e: EvidenceModel| e.weight == weight)
}

/// Why a court record could not be built.
#[derive(Clone, Copy, Debug, PartialEq, Eq)]
pub enum ContentError {
    /// The record at this position has the alias of an earlier record.
    DuplicateAlias(usize),
    /// The record at this position has the full name of an earlier record.
    DuplicateFullname(usize),
}

/// The court record of one case: its pieces of evidence in display order.
/// No two pieces share an alias, and no two a full name.
#[derive(Debug)]
pub struct EvidenceList {
    evidence: Vec<Evidence>,
}

impl View for EvidenceList {
    type V = Seq<EvidenceModel>;

    closed spec fn view(&self) -> Seq<EvidenceModel> {
        record_models(self.evidence@)
    }
}

impl EvidenceList {
    #[verifier::type_invariant]
    closed spec fn keys_are_distinct(&self) -> bool {
        distinct_keys(record_models(self.evidence@))
    }

    /// Builds the court record from `records`, in the order given.
    ///
    /// Fails where two records share an alias or a full name. Aliases are
    /// checked first; the error names the first record that repeats an
    /// earlier one.
    pub fn new(records: Vec<Evidence>) -> (result: Result<EvidenceList, ContentError>)
        ensures
            result is Ok <==> distinct_keys(record_models(records@)),
            match result {
                Ok(list) => list@ == record_models(records@) && distinct_keys(list@),
                Err(ContentError::DuplicateAlias(j)) => {
                    &&& alias_repeats_at(record_models(records@), j as int)
                    &&& forall|k: int| 0 <= k < j ==> !alias_repeats_at(record_models(records@), k)
                },
                Err(ContentError::DuplicateFullname(j)) => {
                    &&& distinct_aliases(record_models(records@))
                    &&& fullname_repeats_at(record_models(records@), j as int)
                    &&& forall|k: int|
                        0 <= k < j ==> !fullname_repeats_at(record_models(records@), k)
                },
            },
    {
        match find_repeated_alias(&records) {
            Some(j) => Err(ContentError::DuplicateAlias(j)),
            None => match find_repeated_fullname(&records) {
                Some(j) => Err(ContentError::DuplicateFullname(j)),
                None => Ok(EvidenceList { evidence: records }),
            },
        }
    }

    /// Number of pieces of evidence.
    pub fn len(&self) -> (len: usize)
        ensures
            len == self@.len(),
    {
        self.evidence.len()
    }

    /// An iterator over the pieces of evidence, in the order of the record.
    pub fn iter(&self) -> (iter: std::slice::Iter<'_, Evidence>)
        ensures
            iter.remaining().len() == self@.len(),
            forall|i: int| 0 <= i < self@.len() ==> (#[trigger] iter.remaining()[i])@ == self@[i],
    {
        self.evidence.iter()
    }

    /// The piece of evidence with the alias `alias`, if there is one.
    /// The match is exact and case-sensitive.
    pub fn get_evidence_from_alias(&self, alias: &str) -> (found: Option<&Evidence>)
        ensures
            distinct_keys(self@),
            match found {
                Some(e) => e@.alias == alias@ && exists|i: int|
                    #[trigger] is_first_with_alias(self@, alias@, i) && self@[i] == e@,
                None => forall|i: int| 0 <= i < self@.len() ==> (#[trigger] self@[i]).alias != alias@,
            },
    {
        proof {
            use_type_invariant(self);
        }
        let mut i: usize = 0;
        while i < self.evidence.len()
            invariant
                i <= self.evidence.len(),
                distinct_keys(self@),
                forall|j: int| 0 <= j < i ==> (#[trigger] self@[j]).alias != alias@,
            decreases self.evidence.len() - i,
        {
            if same_text(self.evidence[i].alias.as_str(), alias) {
                assert(is_first_with_alias(self@, alias@, i as int));
                return Some(&self.evidence[i]);
            }
            i += 1;
        }
        None
    }

    /// The piece of evidence with the full name `fullname`, if there is one.
    /// The match is exact and case-sensitive.
    pub fn get_evidence_from_fullname(&self, fullname: &str) -> (found: Option<&Evidence>)
        ensures
            distinct_keys(self@),
            match found {
                Some(e) => e@.fullname == fullname@ && exists|i: int|
                    #[trigger] is_first_with_fullname(self@, fullname@, i) && self@[i] == e@,
                None => forall|i: int|
                    0 <= i < self@.len() ==> (#[trigger] self@[i]).fullname != fullname@,
            },
    {
        proof {
            use_type_invariant(self);
        }
        let mut i: usize = 0;
        while i < self.evidence.len()
            invariant
                i <= self.evidence.len(),
                distinct_keys(self@),
                forall|j: int| 0 <= j < i ==> (#[trigger] self@[j]).fullname != fullname@,
            decreases self.evidence.len() - i,
        {
            if same_text(self.evidence[i].fullname.as_str(), fullname) {
                assert(is_first_with_fullname(self@, fullname@, i as int));
                return Some(&self.evidence[i]);
            }
            i += 1;
        }
        None
    }

    /// Sorts the record by weight, lightest first. Pieces of equal weight
    /// keep the order they had: for every weight, the pieces of that weight
    /// stand in the record as they stood before.
    pub fn sort_evidence(&mut self)
        ensures
            sorted_by_weight(final(self)@),
            forall|weight: u8| of_weight(final(self)@, weight) == of_weight(old(self)@, weight),
            final(self)@.len() == old(self)@.len(),
            distinct_keys(final(self)@),
    {
        proof {
            use_type_invariant(&*self);
        }
        // The records are sorted outside the list and then put back: the
        // list itself is never seen half-sorted.
        let mut records: Vec<Evidence> = Vec::new();
        std::mem::swap(&mut records, &mut self.evidence);
        sort_records(&mut records);
        self.evidence = records;
    }

    /// The full names of all pieces, in the order of the record.
    pub fn get_evidence_list(&self) -> (names: Vec<String>)
        ensures
            names@.len() == self@.len(),
            forall|i: int| 0 <= i < self@.len() ==> (#[trigger] names@[i])@ == self@[i].fullname,
    {
        let mut names: Vec<String> = Vec::new();
        let mut i: usize = 0;
        while i < self.evidence.len()
            invariant
                i <= self.evidence.len(),
                names@.len() == i,
                forall|j: int| 0 <= j < i ==> (#[trigger] names@[j])@ == self@[j].fullname,
            decreases self.evidence.len() - i,
        {
            names.push(self.evidence[i].fullname.clone());
            i += 1;
        }
        names
    }
}

/// Why a selection from the court record gave no piece of evidence.
#[derive(Clone, Copy, Debug, PartialEq, Eq)]
pub enum SelectionError {
    /// Nothing was chosen: the selection was cancelled or failed.
    Aborted,
    /// The chosen name is neither the full name nor the alias of a piece.
    NotFound,
}

/// Resolves what was chosen from the court record to a piece of evidence.
///
/// `choice` is the outcome of the selection: the chosen name, or `None`
/// where nothing was chosen. The name is looked up among the full names
/// first, then among the aliases. Nothing is picked in place of a missing
/// choice.
pub fn select_evidence<'a>(evidence_list: &'a EvidenceList, choice: Option<&str>) -> (result:
    Result<&'a Evidence, SelectionError>)
    ensures
        match choice {
            None => result == Err::<&Evidence, SelectionError>(SelectionError::Aborted),
            Some(name) => match result {
                Ok(e) => {
                    &&& exists|i: int|
                        0 <= i < evidence_list@.len() && #[trigger] evidence_list@[i] == e@
                    &&& e@.fullname == name@ || (e@.alias == name@ && forall|i: int|
                        0 <= i < evidence_list@.len() ==> (#[trigger] evidence_list@[i]).fullname
                            != name@)
                },
                Err(error) => {
                    &&& error == SelectionError::NotFound
                    &&& forall|i: int|
                        0 <= i < evidence_list@.len() ==> (#[trigger] evidence_list@[i]).fullname
                            != name@ && evidence_list@[i].alias != name@
                },
            },
        },
{
    match choice {
        None => Err(SelectionError::Aborted),
        Some(name) => match evidence_list.get_evidence_from_fullname(name) {
            Some(e) => Ok(e),
            None => match evidence_list.get_evidence_from_alias(name) {
                Some(e) => Ok(e),
                None => Err(SelectionError::NotFound),
            },
        },
    }
}

/// Position of the first record whose alias repeats an earlier one.
fn find_repeated_alias(records: &Vec<Evidence>) -> (found: Option<usize>)
    ensures
        match found {
            Some(j) => alias_repeats_at(record_models(records@), j as int) && forall|k: int|
                0 <= k < j ==> !alias_repeats_at(record_models(records@), k),
            None => distinct_aliases(record_models(records@)),
        },
{
    let ghost models = record_models(records@);
    let mut j: usize = 0;
    while j < records.len()
        invariant
            j <= records.len(),
            models == record_models(records@),
            forall|k: int| 0 <= k < j ==> !alias_repeats_at(models, k),
        decreases records.len() - j,
    {
        let mut i: usize = 0;
        while i < j
            invariant
                i <= j < records.len(),
                models == record_models(records@),
                forall|k: int| 0 <= k < j ==> !alias_repeats_at(models, k),
                forall|h: int| 0 <= h < i ==> (#[trigger] models[h]).alias != models[j as int].alias,
            decreases j - i,
        {
            if records[i].alias == records[j].alias {
                assert(models[i as int].alias == models[j as int].alias);
                return Some(j);
            }
            i += 1;
        }
        j += 1;
    }
    proof {
        assert forall|a: int, b: int| 0 <= a < b < models.len() implies (#[trigger] models[a]).alias
            != (#[trigger] models[b]).alias by {
            assert(!alias_repeats_at(models, b));
        }
    }
    None
}

/// Position of the first record whose full name repeats an earlier one.
fn find_repeated_fullname(records: &Vec<Evidence>) -> (found: Option<usize>)
    ensures
        match found {
            Some(j) => fullname_repeats_at(record_models(records@), j as int) && forall|k: int|
                0 <= k < j ==> !fullname_repeats_at(record_models(records@), k),
            None => distinct_fullnames(record_models(records@)),
        },
{
    let ghost models = record_models(records@);
    let mut j: usize = 0;
    while j < records.len()
        invariant
            j <= records.len(),
            models == record_models(records@),
            forall|k: int| 0 <= k < j ==> !fullname_repeats_at(models, k),
        decreases records.len() - j,
    {
        let mut i: usize = 0;
        while i < j
            invariant
                i <= j < records.len(),
                models == record_models(records@),
                forall|k: int| 0 <= k < j ==> !fullname_repeats_at(models, k),
                forall|h: int|
                    0 <= h < i ==> (#[trigger] models[h]).fullname != models[j as int].fullname,
            decreases j - i,
        {
            if records[i].fullname == records[j].fullname {
                assert(models[i as int].fullname == models[j as int].fullname);
                return Some(j);
            }
            i += 1;
        }
        j += 1;
    }
    proof {
        assert forall|a: int, b: int| 0 <= a < b < models.len() implies (
        #[trigger] models[a]).fullname != (#[trigger] models[b]).fullname by {
            assert(!fullname_repeats_at(models, b));
        }
    }
    None
}

/// Sorts `records` by weight, lightest first, keeping records of equal
/// weight in the order they had.
fn sort_records(records: &mut Vec<Evidence>)
    ensures
        sorted_by_weight(record_models(final(records)@)),
        forall|weight: u8|
            of_weight(record_models(final(records)@), weight) == of_weight(
                record_models(old(records)@),
                weight,
            ),
        distinct_keys(record_models(old(records)@)) ==> distinct_keys(
            record_models(final(records)@),
        ),
        final(records)@.len() == old(records)@.len(),
{
    let ghost initial = record_models(records@);
    let n: usize = records.len();
    let mut i: usize = 0;
    while i < n
        invariant
            i <= n,
            n == records.len(),
            initial == record_models(old(records)@),
            initial.len() == n,
            record_models(records@).skip(i as int) == initial.skip(i as int),
            sorted_by_weight(record_models(records@).take(i as int)),
            forall|weight: u8|
                of_weight(record_models(records@).take(i as int), weight) == of_weight(
                    initial.take(i as int),
                    weight,
                ),
            distinct_keys(initial) ==> distinct_keys(record_models(records@)),
        decreases n - i,
    {
        let ghost before = record_models(records@);
        let weight: u8 = records[i].weight;
        let mut k: usize = i;
        while k > 0 && records[k - 1].weight > weight
            invariant
                k <= i < n,
                n == records.len(),
                before == record_models(records@),
                weight == before[i as int].weight,
                forall|j: int| k <= j < i ==> (#[trigger] before[j]).weight > weight,
            decreases k,
        {
            k -= 1;
        }
        let record = records.remove(i);
        records.insert(k, record);
        proof {
            let after = record_models(records@);
            assert(after == moved(before, i as int, k as int));
            assert forall|j: int| 0 <= j < k implies (#[trigger] before[j]).weight <= weight by {
                assert(before.take(i as int)[j] == before[j]);
                assert(before.take(i as int)[k - 1] == before[k - 1]);
            }
            assert(initial[i as int] == initial.skip(i as int)[0]);
            assert(initial.skip(i + 1) == initial.skip(i as int).skip(1));
            let sorted_part = after.take(i + 1);
            let initial_part = initial.take(i + 1);
            assert forall|w: u8| #[trigger]
                of_weight(sorted_part, w) == of_weight(initial_part, w) by {
                lemma_insert_sorted(before, i as int, k as int, w);
                let pred = |e: EvidenceModel| e.weight == w;
                assert(before.take(i + 1) == before.take(i as int) + seq![before[i as int]]);
                assert(initial.take(i + 1) == initial.take(i as int) + seq![initial[i as int]]);
                Seq::filter_distributes_over_add(before.take(i as int), seq![before[i as int]], pred);
                Seq::filter_distributes_over_add(
                    initial.take(i as int),
                    seq![initial[i as int]],
                    pred,
                );
                assert(of_weight(before.take(i as int), w) == of_weight(initial.take(i as int), w));
            }
            lemma_insert_sorted(before, i as int, k as int, weight);
            if distinct_keys(initial) {
                lemma_move_keeps_distinct(before, i as int, k as int);
            }
        }
        i += 1;
    }
    proof {
        assert(record_models(records@).take(i as int) == record_models(records@));
        assert(initial.take(i as int) == initial);
    }
}

/// The order is determined. Two sorted sequences that hold, for every
/// weight, the same records of that weight in the same order are the same
/// sequence: sorting by weight and keeping the order among equal weights
/// leaves one result only.
pub proof fn lemma_stable_order_is_unique(a: Seq<EvidenceModel>, b: Seq<EvidenceModel>)
    requires
        sorted_by_weight(a),
        sorted_by_weight(b),
        forall|weight: u8| of_weight(a, weight) == of_weight(b, weight),
    ensures
        a == b,
    decreases a.len(),
{
    if a.len() == 0 {
        if b.len() > 0 {
            lemma_of_weight_last(b, b.last().weight);
            lemma_of_weight_absent(a, b.last().weight);
            assert(of_weight(b, b.last().weight).len() > 0);
            assert(of_weight(a, b.last().weight).len() == 0);
        }
    } else {
        let heaviest = a.last().weight;
        lemma_of_weight_last(a, heaviest);
        assert(of_weight(a, heaviest).len() > 0);
        if b.len() == 0 {
            lemma_of_weight_absent(b, heaviest);
            assert(of_weight(b, heaviest).len() == 0);
        }
        assert(b.len() > 0);
        let other = b.last().weight;
        lemma_of_weight_last(b, other);
        lemma_of_weight_last(b, heaviest);
        lemma_of_weight_last(a, other);
        assert(of_weight(b, other).len() > 0);
        if other > heaviest {
            lemma_of_weight_absent(a, other);
            assert(of_weight(a, other).len() == 0);
        }
        if heaviest > other {
            lemma_of_weight_absent(b, heaviest);
            assert(of_weight(b, heaviest).len() == 0);
        }
        assert(other == heaviest);
        assert(a.last() == of_weight(a, heaviest).last());
        assert(b.last() == of_weight(b, heaviest).last());
        assert forall|weight: u8|
            of_weight(a.drop_last(), weight) == of_weight(b.drop_last(), weight) by {
            lemma_of_weight_last(a, weight);
            lemma_of_weight_last(b, weight);
            if weight == heaviest {
                assert(of_weight(a.drop_last(), weight) == of_weight(a, weight).drop_last());
                assert(of_weight(b.drop_last(), weight) == of_weight(b, weight).drop_last());
            }
        }
        assert(sorted_by_weight(a.drop_last())) by {
            assert forall|i: int, j: int| 0 <= i < j < a.drop_last().len() implies (
            #[trigger] a.drop_last()[i]).weight <= (#[trigger] a.drop_last()[j]).weight by {
                assert(a.drop_last()[i] == a[i] && a.drop_last()[j] == a[j]);
            }
        }
        assert(sorted_by_weight(b.drop_last())) by {
            assert forall|i: int, j: int| 0 <= i < j < b.drop_last().len() implies (
            #[trigger] b.drop_last()[i]).weight <= (#[trigger] b.drop_last()[j]).weight by {
                assert(b.drop_last()[i] == b[i] && b.drop_last()[j] == b[j]);
            }
        }
        lemma_stable_order_is_unique(a.drop_last(), b.drop_last());
        assert(a == a.drop_last().push(a.last()));
        assert(b == b.drop_last().push(b.last()));
    }
}

/// What `records` becomes when the record at `from` moves to position `to`
/// and the records between make room.
spec fn moved(records: Seq<EvidenceModel>, from: int, to: int) -> Seq<EvidenceModel> {
    records.remove(from).insert(to, records[from])
}

/// Filtering a one-element sequence keeps the element or nothing.
proof fn lemma_of_weight_single(record: EvidenceModel, weight: u8)
    ensures
        of_weight(seq![record], weight) == if record.weight == weight {
            seq![record]
        } else {
            Seq::<EvidenceModel>::empty()
        },
{
    reveal_with_fuel(Seq::filter, 2);
}

/// Records of which none has the weight `weight` hold none of that weight.
proof fn lemma_of_weight_absent(records: Seq<EvidenceModel>, weight: u8)
    requires
        forall|i: int| 0 <= i < records.len() ==> (#[trigger] records[i]).weight != weight,
    ensures
        of_weight(records, weight) == Seq::<EvidenceModel>::empty(),
    decreases records.len(),
{
    reveal(Seq::filter);
    if records.len() > 0 {
        lemma_of_weight_absent(records.drop_last(), weight);
    }
}

/// The records of the weight of the last record end with that record, and
/// taking the last record away takes it from them and from no other weight.
proof fn lemma_of_weight_last(records: Seq<EvidenceModel>, weight: u8)
    requires
        records.len() > 0,
    ensures
        of_weight(records, weight) == if records.last().weight == weight {
            of_weight(records.drop_last(), weight).push(records.last())
        } else {
            of_weight(records.drop_last(), weight)
        },
{
    reveal(Seq::filter);
}

/// Moving a record to an earlier position keeps aliases and full names distinct.
proof fn lemma_move_keeps_distinct(records: Seq<EvidenceModel>, from: int, to: int)
    requires
        0 <= to <= from < records.len(),
        distinct_keys(records),
    ensures
        distinct_keys(moved(records, from, to)),
{
    let after = moved(records, from, to);
    let origin = |a: int|
        if a < to {
            a
        } else if a == to {
            from
        } else if a <= from {
            a - 1
        } else {
            a
        };
    assert forall|a: int| 0 <= a < after.len() implies #[trigger] after[a] == records[origin(a)] by {}
    assert forall|a: int, b: int| 0 <= a < b < after.len() implies (#[trigger] after[a]).alias != (
    #[trigger] after[b]).alias && after[a].fullname != after[b].fullname by {
        // Two places of `after` hold what two places of `records` held.
        assert(origin(a) != origin(b));
    }
}

/// Inserting the record behind a sorted prefix at its place: the longer
/// prefix is sorted, and holds for every weight the records it held before,
/// then the new one.
proof fn lemma_insert_sorted(records: Seq<EvidenceModel>, from: int, to: int, weight: u8)
    requires
        0 <= to <= from < records.len(),
        sorted_by_weight(records.take(from)),
        forall|j: int| 0 <= j < to ==> (#[trigger] records[j]).weight <= records[from].weight,
        forall|j: int| to <= j < from ==> (#[trigger] records[j]).weight > records[from].weight,
    ensures
        sorted_by_weight(moved(records, from, to).take(from + 1)),
        moved(records, from, to).skip(from + 1) == records.skip(from + 1),
        of_weight(moved(records, from, to).take(from + 1), weight) == of_weight(
            records.take(from + 1),
            weight,
        ),
{
    let record = records[from];
    let after = moved(records, from, to).take(from + 1);
    let low = records.take(to);
    let high = records.subrange(to, from);
    assert(after == low + seq![record] + high);
    assert(records.take(from) == low + high);
    assert(records.take(from + 1) == low + high + seq![record]);
    assert forall|i: int, j: int| 0 <= i < j < after.len() implies (#[trigger] after[i]).weight <= (
    #[trigger] after[j]).weight by {
        // Both stood in the sorted prefix, or one of them is the record
        // that was put between the lighter and the heavier ones.
        let before = low + high;
        if i != to && j != to {
            let was_i = if i < to { i } else { i - 1 };
            let was_j = if j < to { j } else { j - 1 };
            assert(after[i] == before[was_i] && after[j] == before[was_j]);
        }
    }
    let pred = |e: EvidenceModel| e.weight == weight;
    Seq::filter_distributes_over_add(low, seq![record], pred);
    Seq::filter_distributes_over_add(low + seq![record], high, pred);
    Seq::filter_distributes_over_add(low, high, pred);
    Seq::filter_distributes_over_add(low + high, seq![record], pred);
    lemma_of_weight_single(record, weight);
    if record.weight == weight {
        lemma_of_weight_absent(high, weight);
    }
}

} // verus!
