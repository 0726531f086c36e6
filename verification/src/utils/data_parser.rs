use crate::bag::{lemma_distinct_filter_len, lemma_distinct_within_len};
use crate::utils::label::{parse_label, parsed_label};
use crate::utils::tokenizer::{create_string_tokens, text_tokens};
use std::collections::HashMap;
use vstd::multiset::Multiset;
use vstd::prelude::*;
use vstd::seq_lib::{to_multiset_build, to_multiset_len};
use vstd::std_specs::iter::IteratorSpec;

verus! {

/// One record of a table of labelled emails: its fields in order, or
/// `None` for a record that could not be read.
pub type Record = Option<Seq<Seq<char>>>;

/// The records that the bytes of a CSV document hold after its header
/// line, in order.
pub uninterp spec fn csv_rows(bytes: Seq<u8>) -> Seq<Option<Seq<Seq<char>>>>;

/// Reads the records of a CSV document held in memory.
///
/// Calls `csv::Reader::from_reader` on the bytes and `Reader::records` on
/// the reader, which has the crate's default settings: the first record is
/// taken for the header and not handed out, and every later record must
/// have as many fields as the first. Each item that the iterator yields
/// becomes one entry: the fields of a record, or `None` for an error. The
/// contract gives the outcome a name and says nothing more of it.
#[verifier::external_body]
fn read_records(bytes: &[u8]) -> (rows: Vec<Option<Vec<String>>>)
    ensures
        rows.deep_view() == csv_rows(bytes@),
{
    let mut reader = csv::Reader::from_reader(bytes);
    reader.records().map(
        |item| item.ok().map(|record| record.iter().map(|field| field.to_owned()).collect()),
    ).collect()
}

/// What a record says: whether its email is ham, and the email's text.
///
/// A record counts only if it could be read, its first field is not the
/// word `label`, that field is a 32-bit integer, and it has a second
/// field. The email is ham where the label is 1 and spam otherwise.
pub open spec fn reading(record: Record) -> Option<(bool, Seq<char>)> {
    match record {
        None => None,
        Some(fields) => if fields.len() < 2 || fields[0] == "label"@ {
            None
        } else {
            match parsed_label(fields[0]) {
                None => None,
                Some(label) => Some((label == 1, fields[1])),
            }
        },
    }
}

/// The tokens that a record adds to the emails of one class.
pub open spec fn record_tokens(record: Record, ham: bool) -> Multiset<u32> {
    match reading(record) {
        Some((class, email)) => if class == ham {
            text_tokens(email).to_multiset()
        } else {
            Multiset::empty()
        },
        None => Multiset::empty(),
    }
}

/// Every token occurrence in the emails of one class.
pub open spec fn class_tokens(records: Seq<Record>, ham: bool) -> Multiset<u32>
    decreases records.len(),
{
    if records.len() == 0 {
        Multiset::empty()
    } else {
        class_tokens(records.drop_last(), ham).add(record_tokens(records.last(), ham))
    }
}

/// The table of a multiset of tokens: each token that occurs, with the
/// number of its occurrences.
pub open spec fn counts_of(bag: Multiset<u32>) -> Map<u32, usize> {
    Map::new(|t: u32| bag.count(t) > 0, |t: u32| bag.count(t) as usize)
}

/// The table after one more occurrence of each of `tokens`, in order: a
/// token without an entry gets the count one.
pub open spec fn counted(table: Map<u32, usize>, tokens: Seq<u32>) -> Map<u32, usize>
    decreases tokens.len(),
{
    if tokens.len() == 0 {
        table
    } else {
        let before = counted(table, tokens.drop_last());
        let seen: int = if before.contains_key(tokens.last()) {
            before[tokens.last()] as int
        } else {
            0
        };
        before.insert(tokens.last(), (seen + 1) as usize)
    }
}

/// Counting the tokens of a sequence into the table of a multiset gives the
/// table of the multiset with those tokens added.
pub proof fn lemma_counted_adds(bag: Multiset<u32>, tokens: Seq<u32>)
    requires
        bag.len() + tokens.len() <= usize::MAX,
    ensures
        counted(counts_of(bag), tokens) == counts_of(bag.add(tokens.to_multiset())),
    decreases tokens.len(),
{
    broadcast use vstd::multiset::group_multiset_axioms;

    if tokens.len() == 0 {
        to_multiset_len(tokens);
        assert(bag.add(tokens.to_multiset()) =~= bag);
    } else {
        let front = tokens.drop_last();
        let t = tokens.last();
        lemma_counted_adds(bag, front);
        assert(tokens =~= front.push(t));
        to_multiset_build(front, t);
        to_multiset_len(front);
        let before = bag.add(front.to_multiset());
        assert(bag.add(tokens.to_multiset()) =~= before.insert(t));
        assert(counts_of(before).insert(t, (before.count(t) + 1) as usize) =~= counts_of(
            before.insert(t),
        ));
    }
}

/// Records one more occurrence of each of `tokens` in a table of counts.
///
/// No count may pass the largest `usize`.
pub fn count_tokens(counts: &mut HashMap<u32, usize>, tokens: &Vec<u32>)
    requires
        forall|t: u32|
            old(counts)@.contains_key(t) ==> old(counts)@[t] + tokens@.to_multiset().count(t)
                <= usize::MAX,
    ensures
        final(counts)@ == counted(old(counts)@, tokens@),
{
    broadcast use vstd::std_specs::hash::group_hash_axioms;
    broadcast use vstd::multiset::group_multiset_axioms;

    let ghost start = counts@;
    let mut i: usize = 0;
    proof {
        assert(tokens@.take(0) =~= Seq::empty());
        to_multiset_len(tokens@.take(0));
    }
    while i < tokens.len()
        invariant
            i <= tokens.len(),
            counts@ == counted(start, tokens@.take(i as int)),
            forall|t: u32|
                start.contains_key(t) ==> start[t] + tokens@.to_multiset().count(t) <= usize::MAX,
            forall|t: u32| #[trigger]
                counts@.contains_key(t) <==> start.contains_key(t) || tokens@.take(
                    i as int,
                ).to_multiset().count(t) > 0,
            forall|t: u32| #[trigger]
                counts@.contains_key(t) ==> counts@[t] == (if start.contains_key(t) {
                    start[t] as int
                } else {
                    0
                }) + tokens@.take(i as int).to_multiset().count(t),
        decreases tokens.len() - i,
    {
        let t = tokens[i];
        let seen = match counts.get(&t) {
            Some(n) => *n,
            None => 0,
        };
        proof {
            let done = tokens@.take(i as int);
            assert(tokens@.take(i + 1) =~= done.push(t));
            assert(tokens@.take(i + 1).drop_last() =~= done);
            to_multiset_build(done, t);
            lemma_prefix_count(tokens@, i + 1, t);
            to_multiset_len(tokens@);
        }
        counts.insert(t, seen + 1);
        i += 1;
    }
    proof {
        assert(tokens@.take(i as int) =~= tokens@);
    }
}

/// A token occurs no more often in the beginning of a sequence than in the whole.
proof fn lemma_prefix_count(tokens: Seq<u32>, k: int, t: u32)
    requires
        0 <= k <= tokens.len(),
    ensures
        tokens.take(k).to_multiset().count(t) <= tokens.to_multiset().count(t),
    decreases tokens.len() - k,
{
    broadcast use vstd::multiset::group_multiset_axioms;

    if k < tokens.len() {
        assert(tokens.take(k + 1) =~= tokens.take(k).push(tokens[k]));
        to_multiset_build(tokens.take(k), tokens[k]);
        lemma_prefix_count(tokens, k + 1, t);
    } else {
        assert(tokens.take(k) =~= tokens);
    }
}

/// The predicate that holds of the tokens without an entry in `table`.
spec fn missing_from(table: Map<u32, usize>) -> spec_fn(u32) -> bool {
    |t: u32| !table.contains_key(t)
}

/// The entries of one table together with the listed entries that the
/// table lacks are as many as the numbers say, and are among the entries
/// of both tables.
proof fn lemma_fresh_keys(ham: Map<u32, usize>, spam: Map<u32, usize>, keys: Seq<u32>)
    requires
        ham.dom().finite(),
        spam.dom().finite(),
        keys.no_duplicates(),
        keys.to_set().subset_of(spam.dom()),
    ensures
        ham.dom().len() + keys.filter(missing_from(ham)).len() == ham.dom().union(
            keys.to_set().filter(missing_from(ham)),
        ).len(),
        ham.dom().len() + keys.filter(missing_from(ham)).len() <= ham.dom().union(
            spam.dom(),
        ).len(),
{
    broadcast use vstd::set::group_set_axioms;

    let fresh = keys.to_set().filter(missing_from(ham));
    lemma_distinct_filter_len(keys, missing_from(ham));
    vstd::seq_lib::seq_to_set_is_finite(keys);
    keys.to_set().lemma_len_filter(missing_from(ham));
    assert(ham.dom().disjoint(fresh));
    vstd::set_lib::lemma_set_disjoint_lens(ham.dom(), fresh);
    vstd::set_lib::lemma_len_subset(ham.dom().union(fresh), ham.dom().union(spam.dom()));
}

/// The number of tokens that have an entry in either table.
fn count_distinct(ham: &HashMap<u32, usize>, spam: &HashMap<u32, usize>) -> (n: usize)
    requires
        ham@.dom().union(spam@.dom()).len() <= usize::MAX,
    ensures
        n == ham@.dom().union(spam@.dom()).len(),
{
    broadcast use vstd::std_specs::hash::group_hash_axioms;

    let mut n: usize = ham.len();
    let ghost keys = spam.keys().remaining().unref();
    proof {
        assert(keys.take(0) =~= Seq::empty());
        reveal(Seq::filter);
    }
    for k in it: spam.keys()
        invariant
            keys == it.seq().unref(),
            keys.to_set() == spam@.dom(),
            keys.no_duplicates(),
            ham@.dom().union(spam@.dom()).len() <= usize::MAX,
            n == ham@.dom().len() + keys.take(it.index() as int).filter(missing_from(ham@)).len(),
    {
        proof {
            let i = it.index() as int;
            assert(keys[i] == *k);
            assert(keys.take(i + 1) =~= keys.take(i).push(keys[i]));
            keys.take(i).lemma_filter_len_push(missing_from(ham@), keys[i]);
            let shown = keys.take(i + 1);
            assert(shown.to_set().subset_of(spam@.dom())) by {
                assert forall|t: u32| shown.contains(t) implies keys.contains(t) by {
                    let j = choose|j: int| 0 <= j < shown.len() && shown[j] == t;
                    assert(keys[j] == t);
                }
            }
            lemma_fresh_keys(ham@, spam@, keys.take(i + 1));
        }
        if !ham.contains_key(k) {
            n = n + 1;
        }
    }
    proof {
        assert(keys.take(keys.len() as int) =~= keys);
        lemma_fresh_keys(ham@, spam@, keys);
        assert(ham@.dom().union(keys.to_set().filter(missing_from(ham@))) =~= ham@.dom().union(
            spam@.dom(),
        ));
    }
    n
}

/// The tokens of a beginning of the records are among those of all of them.
proof fn lemma_prefix_tokens(records: Seq<Record>, k: int, ham: bool)
    requires
        0 <= k <= records.len(),
    ensures
        class_tokens(records.take(k), ham).len() <= class_tokens(records, ham).len(),
    decreases records.len(),
{
    broadcast use vstd::multiset::group_multiset_axioms;

    if k == records.len() {
        assert(records.take(k) =~= records);
    } else {
        assert(records.take(k) =~= records.drop_last().take(k));
        lemma_prefix_tokens(records.drop_last(), k, ham);
    }
}

/// Reads one record: whether its email is ham, and the email.
fn classify(row: &Option<Vec<String>>) -> (r: Option<(bool, &String)>)
    ensures
        match r {
            Some((ham, email)) => reading(row.deep_view()) == Some((ham, email@)),
            None => reading(row.deep_view()) is None,
        },
{
    match row {
        None => None,
        Some(fields) => {
            assert(row.deep_view() == Some(fields.deep_view()));
            if fields.len() < 2 {
                return None;
            }
            assert(fields.deep_view()[0] == fields[0]@ && fields.deep_view()[1] == fields[1]@);
            let header = "label".to_owned();
            if fields[0] == header {
                return None;
            }
            match parse_label(fields[0].as_str()) {
                None => None,
                Some(label) => Some((label == 1, &fields[1])),
            }
        },
    }
}

/// The token counts of the records read so far, while a table of labelled
/// emails is read record by record.
pub struct TokenCounts {
    ham_tokens: HashMap<u32, usize>,
    spam_tokens: HashMap<u32, usize>,
    total_words: usize,
    records: Ghost<Seq<Record>>,
}

impl TokenCounts {
    #[verifier::type_invariant]
    spec fn consistent(&self) -> bool {
        &&& self.ham_tokens@ == counts_of(class_tokens(self.records@, true))
        &&& self.spam_tokens@ == counts_of(class_tokens(self.records@, false))
        &&& self.total_words == class_tokens(self.records@, true).len() + class_tokens(
            self.records@,
            false,
        ).len()
    }

    /// The records read so far, in order.
    pub closed spec fn records(&self) -> Seq<Record> {
        self.records@
    }

    /// The counts before any record is read.
    pub fn new() -> (counts: TokenCounts)
        ensures
            counts.records() == Seq::<Record>::empty(),
    {
        let ham_tokens: HashMap<u32, usize> = HashMap::new();
        let spam_tokens: HashMap<u32, usize> = HashMap::new();
        proof {
            broadcast use vstd::multiset::group_multiset_axioms;

            assert(ham_tokens@ =~= counts_of(Multiset::empty()));
            assert(spam_tokens@ =~= counts_of(Multiset::empty()));
        }
        TokenCounts { ham_tokens, spam_tokens, total_words: 0, records: Ghost(Seq::empty()) }
    }

    /// Reads one more record: the tokens of its email are counted in its
    /// class, and a record that says nothing changes no count. The result is
    /// `None` where the emails then hold more token occurrences than a
    /// `usize` can count.
    pub fn add(self, row: &Option<Vec<String>>) -> (next: Option<TokenCounts>)
        ensures
            match next {
                Some(n) => n.records() == self.records().push(row.deep_view()),
                None => class_tokens(self.records().push(row.deep_view()), true).len()
                    + class_tokens(self.records().push(row.deep_view()), false).len()
                    > usize::MAX,
            },
    {
        broadcast use vstd::multiset::group_multiset_axioms;

        proof {
            use_type_invariant(&self);
        }
        let ghost before = self.records@;
        let ghost after = before.push(row.deep_view());
        let ghost ham_before = class_tokens(before, true);
        let ghost spam_before = class_tokens(before, false);
        let TokenCounts { ham_tokens, spam_tokens, total_words, records } = self;
        let mut ham_tokens = ham_tokens;
        let mut spam_tokens = spam_tokens;
        let mut total_words = total_words;
        proof {
            assert(after.drop_last() =~= before);
            assert(after.last() == row.deep_view());
        }
        match classify(row) {
            None => {
                proof {
                    assert(ham_before.add(Multiset::empty()) =~= ham_before);
                    assert(spam_before.add(Multiset::empty()) =~= spam_before);
                }
            },
            Some((ham, email)) => {
                let tokens = create_string_tokens(email.as_str());
                proof {
                    to_multiset_len(tokens@);
                }
                total_words = match total_words.checked_add(tokens.len()) {
                    Some(sum) => sum,
                    None => {
                        return None;
                    },
                };
                if ham {
                    proof {
                        lemma_counted_adds(ham_before, tokens@);
                        assert(spam_before.add(Multiset::empty()) =~= spam_before);
                    }
                    count_tokens(&mut ham_tokens, &tokens);
                } else {
                    proof {
                        lemma_counted_adds(spam_before, tokens@);
                        assert(ham_before.add(Multiset::empty()) =~= ham_before);
                    }
                    count_tokens(&mut spam_tokens, &tokens);
                }
            },
        }
        Some(TokenCounts { ham_tokens, spam_tokens, total_words, records: Ghost(after) })
    }

    /// Closes the count: the table of each class, the number of token
    /// occurrences and the number of distinct tokens.
    pub fn finish(self) -> (parser: DataParser)
        ensures
            parser.holds(
                class_tokens(self.records(), true),
                class_tokens(self.records(), false),
            ),
    {
        broadcast use vstd::multiset::group_multiset_axioms;
        broadcast use vstd::std_specs::hash::group_hash_axioms;

        proof {
            use_type_invariant(&self);
        }
        let ghost ham = class_tokens(self.records@, true);
        let ghost spam = class_tokens(self.records@, false);
        let TokenCounts { ham_tokens, spam_tokens, total_words, records } = self;
        proof {
            lemma_distinct_within_len(ham.add(spam));
            assert(ham.add(spam).dom() =~= ham_tokens@.dom().union(spam_tokens@.dom()));
        }
        let unique_words = count_distinct(&ham_tokens, &spam_tokens);
        DataParser { total_words, unique_words, ham_tokens, spam_tokens }
    }
}

/// Token counts of a collection of labelled emails: how often each token
/// occurs in the ham emails and in the spam emails, how many token
/// occurrences there are in all, and how many distinct tokens.
pub struct DataParser {
    pub total_words: usize,
    pub unique_words: usize,
    pub ham_tokens: HashMap<u32, usize>,
    pub spam_tokens: HashMap<u32, usize>,
}

impl DataParser {
    /// The parser holds exactly the counts of the given token occurrences.
    pub open spec fn holds(&self, ham: Multiset<u32>, spam: Multiset<u32>) -> bool {
        &&& self.ham_tokens@ == counts_of(ham)
        &&& self.spam_tokens@ == counts_of(spam)
        &&& self.total_words == ham.len() + spam.len()
        &&& self.unique_words == ham.add(spam).dom().len()
    }

    /// Counts the tokens of the emails in `rows`, record by record. Records
    /// that say nothing are passed over. The result is `None` where the
    /// emails hold more token occurrences than a `usize` can count.
    pub fn from_rows(rows: &Vec<Option<Vec<String>>>) -> (parser: Option<DataParser>)
        ensures
            match parser {
                Some(p) => p.holds(
                    class_tokens(rows.deep_view(), true),
                    class_tokens(rows.deep_view(), false),
                ),
                None => class_tokens(rows.deep_view(), true).len() + class_tokens(
                    rows.deep_view(),
                    false,
                ).len() > usize::MAX,
            },
    {
        let ghost records = rows.deep_view();
        let mut counts = TokenCounts::new();
        let mut i: usize = 0;
        proof {
            assert(records.take(0) =~= Seq::empty());
        }
        while i < rows.len()
            invariant
                i <= rows.len(),
                records == rows.deep_view(),
                counts.records() == records.take(i as int),
            decreases rows.len() - i,
        {
            proof {
                assert(records.take(i + 1) =~= records.take(i as int).push(
                    rows[i as int].deep_view(),
                ));
                lemma_prefix_tokens(records, i + 1, true);
                lemma_prefix_tokens(records, i + 1, false);
            }
            counts = match counts.add(&rows[i]) {
                Some(next) => next,
                None => {
                    return None;
                },
            };
            i += 1;
        }
        proof {
            assert(records.take(i as int) =~= records);
        }
        Some(counts.finish())
    }

    /// Counts the tokens of the labelled emails of a CSV document: one
    /// record for each email, with the label in the first field and the
    /// text in the second.
    pub fn from_csv(bytes: &[u8]) -> (parser: Option<DataParser>)
        ensures
            match parser {
                Some(p) => p.holds(
                    class_tokens(csv_rows(bytes@), true),
                    class_tokens(csv_rows(bytes@), false),
                ),
                None => class_tokens(csv_rows(bytes@), true).len() + class_tokens(
                    csv_rows(bytes@),
                    false,
                ).len() > usize::MAX,
            },
    {
        let rows = read_records(bytes);
        DataParser::from_rows(&rows)
    }
}

} // verus!
