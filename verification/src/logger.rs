use vstd::prelude::*;
use vstd::string::StringExecFns;

use crate::categories::IntoCategories;
use crate::ledger::{
    ledger_bump, ledger_count, ledger_drop_one, ledger_has_key, ledger_key_list,
    ledger_keys_unique, lemma_occ_cats_first, lemma_occ_cats_le_len, lemma_occ_cats_take_step,
    lemma_occ_records_concat, lemma_occ_records_first, lemma_occ_records_push,
    lemma_occ_records_split, lemma_occ_records_take_step, occ_in_cats, occ_in_records,
};
use crate::record::LogRecord;
use crate::search::{
    regex_accepts, regex_term_matches, regex_term_valid, regex_valid, SearchPattern,
};
use crate::text::{
    contains_substr, join_commas, lower_of, pad_left, sanitize_term, spec_contains,
    spec_join_commas, spec_pad_left, spec_sanitize, spec_strip_newlines, spec_truncate,
    strip_newlines, to_lowercase,
};
use crate::time::{now_millis, render_local, render_utc, rfc3339_utc};
use crate::types::{severity, spec_level_str, LogLevel, TimeFormat, TimePrecision};

verus! {

/// How many records the front of a queue of length `len` loses when the
/// bound `max` is enforced.
pub open spec fn spec_evict(len: nat, max: nat) -> nat {
    if len > max {
        (len - max) as nat
    } else {
        0
    }
}

/// The display line of a record: the padded timestamp, then the severity
/// tag and the category tag where enabled, then the message. Search
/// matches against this rendered line.
pub open spec fn spec_line(
    show_level: bool,
    show_categories: bool,
    level: LogLevel,
    cats: Seq<Seq<char>>,
    msg: Seq<char>,
    padded_time: Seq<char>,
) -> Seq<char> {
    padded_time + (if show_level {
        "["@ + spec_level_str(level) + "] "@
    } else {
        Seq::<char>::empty()
    }) + (if show_categories {
        "["@ + spec_join_commas(cats) + "] "@
    } else {
        Seq::<char>::empty()
    }) + msg
}

/// A timestamp rendering as it stands in a display line: the rendering
/// with its one trailing space.
pub open spec fn spec_spaced(t: Seq<char>) -> Seq<char> {
    t + " "@
}

/// The records of a sequence of references, each taken out of its
/// reference.
pub open spec fn deref_recs(s: Seq<&LogRecord>) -> Seq<LogRecord> {
    s.map_values(|p: &LogRecord| *p)
}

/// Whether `a` is a subsequence of `b`: the records of `a` stand in `b`
/// in the same order, each matched to a distinct position — so nothing
/// is duplicated and no order is invented.
pub open spec fn subseq_of(a: Seq<LogRecord>, b: Seq<LogRecord>) -> bool
    decreases a.len() + b.len(),
{
    if a.len() == 0 {
        true
    } else if b.len() == 0 {
        false
    } else if a.last() == b.last() {
        subseq_of(a.drop_last(), b.drop_last()) || subseq_of(a, b.drop_last())
    } else {
        subseq_of(a, b.drop_last())
    }
}

/// A subsequence of `b` is one of `b` with more behind it.
proof fn lemma_subseq_grow(a: Seq<LogRecord>, b: Seq<LogRecord>, x: LogRecord)
    requires
        subseq_of(a, b),
    ensures
        subseq_of(a, b.push(x)),
{
    assert(b.push(x).drop_last() =~= b);
    assert(b.push(x).last() == x);
}

/// Appending the same record to both sides keeps the subsequence.
proof fn lemma_subseq_push_both(a: Seq<LogRecord>, b: Seq<LogRecord>, x: LogRecord)
    requires
        subseq_of(a, b),
    ensures
        subseq_of(a.push(x), b.push(x)),
{
    assert(a.push(x).drop_last() =~= a);
    assert(b.push(x).drop_last() =~= b);
    assert(a.push(x).last() == b.push(x).last());
}

/// An element of either part stands in the concatenation.
proof fn lemma_concat_contains(a: Seq<LogRecord>, b: Seq<LogRecord>, x: LogRecord)
    requires
        a.contains(x) || b.contains(x),
    ensures
        (a + b).contains(x),
{
    if a.contains(x) {
        let j = choose|j: int| 0 <= j < a.len() && a[j] == x;
        assert((a + b)[j] == x);
    } else {
        let j = choose|j: int| 0 <= j < b.len() && b[j] == x;
        assert((a + b)[a.len() + j] == x);
    }
}

/// Occurrences distribute over the four queues laid end to end.
proof fn lemma_occ_all(
    a: Seq<LogRecord>,
    b: Seq<LogRecord>,
    c: Seq<LogRecord>,
    d: Seq<LogRecord>,
    n: Seq<char>,
)
    ensures
        occ_in_records(a + b + c + d, n) == occ_in_records(a, n) + occ_in_records(b, n)
            + occ_in_records(c, n) + occ_in_records(d, n),
{
    lemma_occ_records_concat(a, b, n);
    lemma_occ_records_concat(a + b, c, n);
    lemma_occ_records_concat(a + b + c, d, n);
}

/// Lower the ledger by every category occurrence of one evicted record.
fn drop_record_counts(counts: &mut Vec<(String, usize)>, cats: &Vec<String>)
    requires
        ledger_keys_unique(old(counts)@),
        forall|n: Seq<char>|
            occ_in_cats(cats.deep_view(), n) <= #[trigger] ledger_count(old(counts)@, n),
    ensures
        ledger_keys_unique(final(counts)@),
        forall|n: Seq<char>| #[trigger]
            ledger_count(final(counts)@, n) + occ_in_cats(cats.deep_view(), n) == ledger_count(
                old(counts)@,
                n,
            ),
        forall|n: Seq<char>| #[trigger]
            ledger_has_key(final(counts)@, n) <==> ledger_has_key(old(counts)@, n),
{
    let ghost cv = cats.deep_view();
    let mut i: usize = 0;
    proof {
        assert forall|n: Seq<char>| #[trigger]
            ledger_count(counts@, n) + occ_in_cats(cv.take(0), n) == ledger_count(
                old(counts)@,
                n,
            ) by {
            assert(cv.take(0) =~= Seq::<Seq<char>>::empty());
            assert(occ_in_cats(Seq::<Seq<char>>::empty(), n) == 0);
        }
        assert(cv.skip(0) =~= cv);
    }
    while i < cats.len()
        invariant
            cv == cats.deep_view(),
            cv.len() == cats@.len(),
            i <= cats@.len(),
            ledger_keys_unique(counts@),
            forall|n: Seq<char>| #[trigger]
                ledger_count(counts@, n) + occ_in_cats(cv.take(i as int), n) == ledger_count(
                    old(counts)@,
                    n,
                ),
            forall|n: Seq<char>|
                occ_in_cats(cv.skip(i as int), n) <= #[trigger] ledger_count(counts@, n),
            forall|n: Seq<char>| #[trigger]
                ledger_has_key(counts@, n) <==> ledger_has_key(old(counts)@, n),
        decreases cats@.len() - i,
    {
        let ghost mid = counts@;
        ledger_drop_one(counts, &cats[i]);
        proof {
            assert(cv[i as int] == cats@[i as int]@);
            assert forall|n: Seq<char>| #[trigger]
                ledger_count(counts@, n) + occ_in_cats(cv.take(i + 1), n) == ledger_count(
                    old(counts)@,
                    n,
                ) by {
                lemma_occ_cats_take_step(cv, i as int, n);
                lemma_occ_cats_first(cv.skip(i as int), n);
                assert(cv.skip(i as int)[0] == cv[i as int]);
                assert(cv.skip(i as int).skip(1) =~= cv.skip(i + 1));
                if n == cv[i as int] {
                    assert(occ_in_cats(cv.skip(i as int), n) >= 1);
                    assert(ledger_count(mid, n) > 0);
                }
            }
            assert forall|n: Seq<char>|
                occ_in_cats(cv.skip(i + 1), n) <= #[trigger] ledger_count(counts@, n) by {
                lemma_occ_cats_first(cv.skip(i as int), n);
                assert(cv.skip(i as int)[0] == cv[i as int]);
                assert(cv.skip(i as int).skip(1) =~= cv.skip(i + 1));
                if n == cv[i as int] {
                    assert(ledger_count(mid, n) > 0);
                }
            }
        }
        i += 1;
    }
    proof {
        assert(cv.take(cats@.len() as int) =~= cv);
    }
}

/// Evict from the front of one queue until its bound holds, lowering the
/// evicted records' category counts.
fn enforce_queue(records: &mut Vec<LogRecord>, counts: &mut Vec<(String, usize)>, max: usize)
    requires
        ledger_keys_unique(old(counts)@),
        forall|n: Seq<char>|
            occ_in_records(old(records)@, n) <= #[trigger] ledger_count(old(counts)@, n),
    ensures
        ledger_keys_unique(final(counts)@),
        final(records)@ == old(records)@.skip(
            spec_evict(old(records)@.len(), max as nat) as int,
        ),
        final(records)@.len() <= max,
        forall|n: Seq<char>| #[trigger]
            ledger_count(final(counts)@, n) + occ_in_records(
                old(records)@.take(spec_evict(old(records)@.len(), max as nat) as int),
                n,
            ) == ledger_count(old(counts)@, n),
        forall|n: Seq<char>|
            occ_in_records(final(records)@, n) <= #[trigger] ledger_count(final(counts)@, n),
        forall|n: Seq<char>| #[trigger]
            ledger_has_key(final(counts)@, n) <==> ledger_has_key(old(counts)@, n),
{
    proof {
        assert(old(records)@.skip(0) =~= old(records)@);
        assert forall|n: Seq<char>| #[trigger]
            ledger_count(counts@, n) + occ_in_records(old(records)@.take(0), n) == ledger_count(
                old(counts)@,
                n,
            ) by {
            assert(old(records)@.take(0) =~= Seq::<LogRecord>::empty());
            assert(occ_in_records(Seq::<LogRecord>::empty(), n) == 0);
        }
    }
    while records.len() > max
        invariant
            ledger_keys_unique(counts@),
            records@.len() <= old(records)@.len(),
            records@ == old(records)@.skip(old(records)@.len() - records@.len()),
            old(records)@.len() > max ==> records@.len() >= max,
            old(records)@.len() <= max ==> records@ == old(records)@,
            forall|n: Seq<char>| #[trigger]
                ledger_count(counts@, n) + occ_in_records(
                    old(records)@.take(old(records)@.len() - records@.len()),
                    n,
                ) == ledger_count(old(counts)@, n),
            forall|n: Seq<char>|
                occ_in_records(records@, n) <= #[trigger] ledger_count(counts@, n),
            forall|n: Seq<char>| #[trigger]
                ledger_has_key(counts@, n) <==> ledger_has_key(old(counts)@, n),
        decreases records@.len(),
    {
        let ghost pre_rec = records@;
        let ghost pre_cnt = counts@;
        let ghost done = old(records)@.len() - pre_rec.len();
        let r = records.remove(0);
        proof {
            assert(records@ =~= pre_rec.skip(1));
            assert(r == pre_rec[0]);
            assert(old(records)@.skip(done)[0] == old(records)@[done]);
            assert forall|n: Seq<char>|
                occ_in_cats(r.categories.deep_view(), n) <= #[trigger] ledger_count(
                    pre_cnt,
                    n,
                ) by {
                lemma_occ_records_first(pre_rec, n);
            }
        }
        drop_record_counts(counts, &r.categories);
        proof {
            assert forall|n: Seq<char>| #[trigger]
                ledger_count(counts@, n) + occ_in_records(
                    old(records)@.take(done + 1),
                    n,
                ) == ledger_count(old(counts)@, n) by {
                lemma_occ_records_take_step(old(records)@, done, n);
                assert(old(records)@[done] == r);
                assert(r.cats() == r.categories.deep_view());
            }
            assert forall|n: Seq<char>|
                occ_in_records(records@, n) <= #[trigger] ledger_count(counts@, n) by {
                lemma_occ_records_first(pre_rec, n);
            }
            assert(records@ == old(records)@.skip(old(records)@.len() - records@.len())) by {
                assert(old(records)@.skip(done).skip(1) =~= old(records)@.skip(done + 1));
            }
        }
    }
    proof {
        let d = old(records)@.len() - records@.len();
        assert(d == spec_evict(old(records)@.len(), max as nat));
    }
}

/// The log store and filter engine: four bounded queues of records, one
/// per severity, a reference-counted category ledger, the display and
/// filter preferences, and the user-input state that the surrounding
/// rendering layer reads and writes.
pub struct EguiLogger {
    /// The four bounded queues, managed by the store's own operations;
    /// read them through the queries, and leave their upkeep to `log_record`
    /// and `clear`, or `wf` may no longer hold.
    pub records_error: Vec<LogRecord>,
    pub records_warn: Vec<LogRecord>,
    pub records_info: Vec<LogRecord>,
    pub records_debug: Vec<LogRecord>,
    /// Count of live records per category name, managed by the store's own
    /// operations. A name stays enumerable after its count drops to zero;
    /// only `clear` empties the ledger.
    pub category_counts: Vec<(String, usize)>,
    /// Categories hidden from the filtered view, managed by
    /// `hide_category` and `show_category`. A name may stay here even
    /// while no stored record carries it, to keep the preference should
    /// records with it appear again.
    pub hidden_categories: Vec<String>,
    /// The pattern as last compiled, kept only while the term compiled;
    /// managed by `update_search_regex`.
    pub search_pattern: Option<SearchPattern>,
    /// Set to ask the rendering layer to focus the search box once.
    pub should_focus_search: bool,
    /// The text currently in the input box.
    pub input_text: String,
    /// Categories applied to records created from user input.
    pub input_categories: Vec<String>,
    /// Whether the settings bar is shown at all.
    pub show_settings: bool,
    /// Least severity that the filtered view shows.
    pub min_display_level: LogLevel,
    /// How timestamps are rendered.
    pub time_format: TimeFormat,
    pub time_precision: TimePrecision,
    /// Whether categories appear in a record's display line.
    pub show_categories: bool,
    /// Whether the severity tag appears in a record's display line.
    pub show_level: bool,
    /// Whether the search box is visible.
    pub show_search: bool,
    /// Longest stored message; a longer one is truncated at ingestion.
    pub max_message_length: usize,
    /// Bound on each severity's queue, enforced at ingestion.
    pub max_records_per_level: usize,
    /// Current search term.
    pub search_term: String,
    /// Whether the search term is a regular expression.
    pub search_with_regex: bool,
    /// Whether searching is case sensitive; applies to regex search too.
    pub search_with_case_sensitive: bool,
    /// Whether the text-input section is shown.
    pub show_input_area: bool,
    /// Set to ask the rendering layer to focus the input area once.
    pub should_focus_input: bool,
    /// Hint shown while the input box is empty.
    pub input_hint: String,
    /// Prepended to every submitted user input.
    pub input_text_prefix: String,
    /// Severity of records created from user input.
    pub input_level: LogLevel,
}

/// No two strings in the sequence hold the same characters.
pub open spec fn strings_nodup(s: Seq<String>) -> bool {
    forall|i: int, j: int| #![trigger s[i], s[j]]
        0 <= i < j < s.len() ==> s[i]@ != s[j]@
}

/// Two distinct positions of a duplicate-free sequence hold different
/// characters.
proof fn lemma_nodup_at(s: Seq<String>, i: int, j: int)
    requires
        strings_nodup(s),
        0 <= i < s.len(),
        0 <= j < s.len(),
        i != j,
    ensures
        s[i]@ != s[j]@,
{
    if i < j {
        assert(s[i]@ != s[j]@);
    } else {
        assert(s[j]@ != s[i]@);
    }
}

impl EguiLogger {
    /// The stored records of one severity, oldest first.
    pub open spec fn level_seq(self, l: LogLevel) -> Seq<LogRecord> {
        match l {
            LogLevel::Error => self.records_error@,
            LogLevel::Warn => self.records_warn@,
            LogLevel::Info => self.records_info@,
            LogLevel::Debug => self.records_debug@,
        }
    }

    /// All stored records, one severity's queue after another.
    pub open spec fn all_records(self) -> Seq<LogRecord> {
        self.records_error@ + self.records_warn@ + self.records_info@ + self.records_debug@
    }

    /// Number of stored records, unfiltered.
    pub open spec fn spec_total(self) -> nat {
        self.all_records().len()
    }

    /// The ledger's count for one category name.
    pub open spec fn spec_category_count(self, name: Seq<char>) -> nat {
        ledger_count(self.category_counts@, name)
    }

    /// The category names the ledger has seen since the last clear.
    pub open spec fn categories_seen(self) -> Set<Seq<char>> {
        Set::new(|n: Seq<char>| ledger_has_key(self.category_counts@, n))
    }

    /// The category names hidden from the filtered view.
    pub open spec fn hidden_set(self) -> Set<Seq<char>> {
        Set::new(|n: Seq<char>| self.hidden_categories.deep_view().contains(n))
    }

    /// The search pattern as last compiled, if the term compiled.
    pub open spec fn spec_pattern(self) -> Option<SearchPattern> {
        self.search_pattern
    }

    /// Whether the rendering layer was asked to focus the search box.
    pub open spec fn spec_focus_search(self) -> bool {
        self.should_focus_search
    }

    /// The text currently in the input box.
    pub open spec fn spec_input_text(self) -> Seq<char> {
        self.input_text@
    }

    /// The categories applied to records created from user input.
    pub open spec fn spec_input_categories(self) -> Seq<Seq<char>> {
        self.input_categories.deep_view()
    }

    /// Ledger counts agree with the stored records: for every name, the
    /// count equals the number of (record, category-occurrence) pairs for
    /// it across the four queues.
    pub open spec fn counts_match(self) -> bool {
        forall|n: Seq<char>| #[trigger]
            ledger_count(self.category_counts@, n) == occ_in_records(self.all_records(), n)
    }

    /// Well-formedness: unique ledger keys, counts consistent with the
    /// stored records, and no duplicate among the hidden names.
    pub open spec fn wf(self) -> bool {
        &&& ledger_keys_unique(self.category_counts@)
        &&& self.counts_match()
        &&& strings_nodup(self.hidden_categories@)
    }

    /// The preference fields agree between two store values.
    pub open spec fn same_prefs(a: Self, b: Self) -> bool {
        &&& b.show_settings == a.show_settings
        &&& b.min_display_level == a.min_display_level
        &&& b.time_format == a.time_format
        &&& b.time_precision == a.time_precision
        &&& b.show_categories == a.show_categories
        &&& b.show_level == a.show_level
        &&& b.show_search == a.show_search
        &&& b.max_message_length == a.max_message_length
        &&& b.max_records_per_level == a.max_records_per_level
        &&& b.search_term == a.search_term
        &&& b.search_with_regex == a.search_with_regex
        &&& b.search_with_case_sensitive == a.search_with_case_sensitive
        &&& b.show_input_area == a.show_input_area
        &&& b.should_focus_input == a.should_focus_input
        &&& b.input_hint == a.input_hint
        &&& b.input_text_prefix == a.input_text_prefix
        &&& b.input_level == a.input_level
    }

    /// The four record queues and the ledger agree between two values.
    pub open spec fn same_stores(a: Self, b: Self) -> bool {
        &&& b.records_error == a.records_error
        &&& b.records_warn == a.records_warn
        &&& b.records_info == a.records_info
        &&& b.records_debug == a.records_debug
        &&& b.category_counts == a.category_counts
    }

    /// The hidden-category set agrees between two values.
    pub open spec fn same_hidden(a: Self, b: Self) -> bool {
        b.hidden_categories == a.hidden_categories
    }

    /// The compiled search pattern agrees between two values.
    pub open spec fn same_pattern(a: Self, b: Self) -> bool {
        b.search_pattern == a.search_pattern
    }

    /// The user-input state agrees between two values.
    pub open spec fn same_input(a: Self, b: Self) -> bool {
        &&& b.should_focus_search == a.should_focus_search
        &&& b.input_text == a.input_text
        &&& b.input_categories == a.input_categories
    }

    /// A fresh, empty store with the default preferences.
    pub fn new() -> (r: Self)
        ensures
            r.wf(),
            forall|l: LogLevel| #[trigger] r.level_seq(l) == Seq::<LogRecord>::empty(),
            r.spec_total() == 0,
            r.categories_seen() =~= Set::<Seq<char>>::empty(),
            r.hidden_set() =~= Set::<Seq<char>>::empty(),
            r.spec_pattern() is None,
            !r.spec_focus_search(),
            r.spec_input_text() == Seq::<char>::empty(),
            r.spec_input_categories() =~= seq!["Input"@],
            r.show_settings,
            r.min_display_level == LogLevel::Debug,
            r.time_format == TimeFormat::LocalTime,
            r.time_precision == TimePrecision::Seconds,
            r.show_categories,
            r.show_level,
            !r.show_search,
            r.max_message_length == 2000,
            r.max_records_per_level == 2000,
            r.search_term@ == Seq::<char>::empty(),
            !r.search_with_regex,
            !r.search_with_case_sensitive,
            r.show_input_area,
            !r.should_focus_input,
            r.input_hint@ == "Type a message and press Enter..."@,
            r.input_text_prefix@ == Seq::<char>::empty(),
            r.input_level == LogLevel::Info,
    {
        let mut input_categories: Vec<String> = Vec::new();
        input_categories.push(String::from_str("Input"));
        let r = EguiLogger {
            records_error: Vec::new(),
            records_warn: Vec::new(),
            records_info: Vec::new(),
            records_debug: Vec::new(),
            category_counts: Vec::new(),
            hidden_categories: Vec::new(),
            search_pattern: None,
            should_focus_search: false,
            input_text: String::new(),
            input_categories,
            show_settings: true,
            min_display_level: LogLevel::Debug,
            time_format: TimeFormat::LocalTime,
            time_precision: TimePrecision::Seconds,
            show_categories: true,
            show_level: true,
            show_search: false,
            max_message_length: 2000,
            max_records_per_level: 2000,
            search_term: String::new(),
            search_with_regex: false,
            search_with_case_sensitive: false,
            show_input_area: true,
            should_focus_input: false,
            input_hint: String::from_str("Type a message and press Enter..."),
            input_text_prefix: String::new(),
            input_level: LogLevel::Info,
        };
        proof {
            assert(r.input_categories.deep_view() =~= seq!["Input"@]);
            assert(r.all_records() =~= Seq::<LogRecord>::empty());
        }
        r
    }

    /// Total number of stored records: the four queue lengths summed.
    pub fn total_records(&self) -> (r: usize)
        requires
            self.spec_total() <= usize::MAX,
        ensures
            r as nat == self.spec_total(),
    {
        self.records_error.len() + self.records_warn.len() + self.records_info.len()
            + self.records_debug.len()
    }

    /// All category names the ledger has seen since the last clear, in
    /// first-appearance order; a name may have count zero.
    pub fn get_all_categories(&self) -> (r: Vec<String>)
        ensures
            r@.len() == self.category_counts@.len(),
            forall|i: int| 0 <= i < r@.len() ==> r@[i] == self.category_counts@[i].0,
            forall|n: Seq<char>| self.categories_seen().contains(n) <==> r.deep_view().contains(n),
    {
        let r = ledger_key_list(&self.category_counts);
        proof {
            assert forall|n: Seq<char>|
                self.categories_seen().contains(n) <==> r.deep_view().contains(n) by {
                if self.categories_seen().contains(n) {
                    let w = choose|w: int|
                        0 <= w < self.category_counts@.len() && self.category_counts@[w].0@ == n;
                    assert(r.deep_view()[w] == n);
                }
                if r.deep_view().contains(n) {
                    let w = choose|w: int| 0 <= w < r.deep_view().len() && r.deep_view()[w] == n;
                    assert(self.category_counts@[w].0@ == n);
                }
            }
        }
        r
    }

    /// What holds between the states before and after a `clear`: the
    /// queues and the ledger are empty, and everything else is kept.
    pub open spec fn clear_post(pre: Self, post: Self) -> bool {
        &&& post.wf()
        &&& forall|l: LogLevel| #[trigger] post.level_seq(l) == Seq::<LogRecord>::empty()
        &&& post.spec_total() == 0
        &&& post.categories_seen() =~= Set::<Seq<char>>::empty()
        &&& forall|n: Seq<char>| #[trigger] post.spec_category_count(n) == 0
        &&& Self::same_prefs(pre, post)
        &&& Self::same_hidden(pre, post)
        &&& Self::same_pattern(pre, post)
        &&& Self::same_input(pre, post)
    }

    /// Empty the four queues and the category ledger; every preference
    /// field is left alone.
    pub fn clear(&mut self)
        requires
            old(self).wf(),
        ensures
            Self::clear_post(*old(self), *final(self)),
            final(self).wf(),
            final(self).spec_total() == 0,
            final(self).categories_seen() =~= Set::<Seq<char>>::empty(),
    {
        self.records_error.clear();
        self.records_warn.clear();
        self.records_info.clear();
        self.records_debug.clear();
        self.category_counts.clear();
        proof {
            assert(self.all_records() =~= Seq::<LogRecord>::empty());
            assert forall|n: Seq<char>| #[trigger]
                ledger_count(self.category_counts@, n) == occ_in_records(
                    self.all_records(),
                    n,
                ) by {
                assert(ledger_count(Seq::<(String, usize)>::empty(), n) == 0);
                assert(occ_in_records(Seq::<LogRecord>::empty(), n) == 0);
            }
            assert forall|n: Seq<char>| #[trigger] self.spec_category_count(n) == 0 by {
                assert(ledger_count(Seq::<(String, usize)>::empty(), n) == 0);
            }
            assert(self.categories_seen() =~= Set::<Seq<char>>::empty());
        }
    }

    /// Whether a category name is currently hidden from the filtered view.
    pub fn is_category_hidden(&self, category: &str) -> (r: bool)
        ensures
            r == self.hidden_set().contains(category@),
    {
        let mut i: usize = 0;
        while i < self.hidden_categories.len()
            invariant
                i <= self.hidden_categories@.len(),
                forall|j: int| 0 <= j < i ==> self.hidden_categories@[j]@ != category@,
            decreases self.hidden_categories@.len() - i,
        {
            if crate::text::str_eq(self.hidden_categories[i].as_str(), category) {
                proof {
                    assert(self.hidden_categories.deep_view()[i as int] == category@);
                }
                return true;
            }
            i += 1;
        }
        proof {
            assert forall|j: int| 0 <= j < self.hidden_categories.deep_view().len() implies
                self.hidden_categories.deep_view()[j] != category@ by {
                assert(self.hidden_categories@[j]@ != category@);
            }
        }
        false
    }

    /// Hide a category from the filtered view. A record carrying this name
    /// (among any others) is rejected entirely.
    pub fn hide_category(&mut self, category: &str)
        requires
            old(self).wf(),
        ensures
            final(self).wf(),
            final(self).hidden_set() =~= old(self).hidden_set().insert(category@),
            Self::same_prefs(*old(self), *final(self)),
            Self::same_stores(*old(self), *final(self)),
            Self::same_pattern(*old(self), *final(self)),
            Self::same_input(*old(self), *final(self)),
            forall|l: LogLevel| #[trigger] final(self).level_seq(l) == old(self).level_seq(l),
    {
        let already = self.is_category_hidden(category);
        if !already {
            proof {
                assert forall|j: int|
                    0 <= j < old(self).hidden_categories@.len() implies old(
                    self,
                ).hidden_categories@[j]@ != category@ by {
                    assert(old(self).hidden_categories.deep_view()[j] == old(
                        self,
                    ).hidden_categories@[j]@);
                }
            }
            self.hidden_categories.push(String::from_str(category));
            proof {
                let a = old(self).hidden_categories@;
                let b = self.hidden_categories@;
                assert(b =~= a.push(self.hidden_categories@.last()));
                assert(b.last()@ == category@);
                assert forall|x: int, y: int|
                    0 <= x < y < b.len() implies b[x]@ != b[y]@ by {
                    if y < a.len() {
                        lemma_nodup_at(a, x, y);
                    } else {
                        assert(b[y]@ == category@);
                        assert(a[x]@ != category@);
                    }
                }
                assert(strings_nodup(b));
                let pre = old(self).hidden_categories.deep_view();
                let post = self.hidden_categories.deep_view();
                assert forall|n: Seq<char>|
                    post.contains(n) <==> (pre.contains(n) || n == category@) by {
                    assert(post[a.len() as int] == b[a.len() as int]@);
                    if pre.contains(n) {
                        let w = choose|w: int| 0 <= w < pre.len() && pre[w] == n;
                        assert(post[w] == b[w]@ && b[w]@ == a[w]@ && a[w]@ == n);
                    }
                    if post.contains(n) && n != category@ {
                        let w = choose|w: int| 0 <= w < post.len() && post[w] == n;
                        assert(w < a.len());
                        assert(pre[w] == a[w]@ && a[w]@ == n);
                    }
                }
                assert(self.hidden_set() =~= old(self).hidden_set().insert(category@));
            }
        } else {
            proof {
                assert(self.hidden_set() =~= old(self).hidden_set().insert(category@));
            }
        }
    }

    /// Show a category in the filtered view again.
    pub fn show_category(&mut self, category: &str)
        requires
            old(self).wf(),
        ensures
            final(self).wf(),
            final(self).hidden_set() =~= old(self).hidden_set().remove(category@),
            Self::same_prefs(*old(self), *final(self)),
            Self::same_stores(*old(self), *final(self)),
            Self::same_pattern(*old(self), *final(self)),
            Self::same_input(*old(self), *final(self)),
            forall|l: LogLevel| #[trigger] final(self).level_seq(l) == old(self).level_seq(l),
    {
        let mut i: usize = 0;
        while i < self.hidden_categories.len()
            invariant
                old(self).wf(),
                *self == *old(self),
                i <= self.hidden_categories@.len(),
                forall|j: int| 0 <= j < i ==> self.hidden_categories@[j]@ != category@,
            decreases self.hidden_categories@.len() - i,
        {
            if crate::text::str_eq(self.hidden_categories[i].as_str(), category) {
                self.hidden_categories.remove(i);
                proof {
                    let a = old(self).hidden_categories@;
                    let b = self.hidden_categories@;
                    assert(b =~= a.take(i as int) + a.skip(i + 1));
                    assert(a[i as int]@ == category@);
                    assert(forall|w: int| 0 <= w < i ==> b[w] == a[w]);
                    assert(forall|w: int| i <= w < b.len() ==> b[w] == a[w + 1]);
                    assert forall|x: int, y: int|
                        0 <= x < y < b.len() implies b[x]@ != b[y]@ by {
                        let xa: int = if x < i { x } else { x + 1 };
                        let ya: int = if y < i { y } else { y + 1 };
                        assert(b[x] == a[xa]);
                        assert(b[y] == a[ya]);
                        lemma_nodup_at(a, xa, ya);
                    }
                    assert(strings_nodup(b));
                    let pre = old(self).hidden_categories.deep_view();
                    let post = self.hidden_categories.deep_view();
                    assert forall|n: Seq<char>|
                        post.contains(n) <==> (pre.contains(n) && n != category@) by {
                        if post.contains(n) {
                            let w = choose|w: int| 0 <= w < post.len() && post[w] == n;
                            assert(post[w] == b[w]@);
                            let wa: int = if w < i { w } else { w + 1 };
                            assert(b[w] == a[wa]);
                            assert(pre[wa] == a[wa]@ && a[wa]@ == n);
                            assert(wa != i ==> n != category@) by {
                                if wa != i {
                                    lemma_nodup_at(a, wa, i as int);
                                }
                            }
                        }
                        if pre.contains(n) && n != category@ {
                            let w = choose|w: int| 0 <= w < pre.len() && pre[w] == n;
                            assert(a[w]@ == n);
                            assert(w != i);
                            if w < i {
                                assert(post[w] == b[w]@ && b[w]@ == n);
                            } else {
                                assert(post[w - 1] == b[w - 1]@ && b[w - 1] == a[w] && a[w]@ == n);
                            }
                        }
                    }
                    assert(self.hidden_set() =~= old(self).hidden_set().remove(category@));
                }
                return ;
            }
            i += 1;
        }
        proof {
            let pre = old(self).hidden_categories.deep_view();
            assert forall|n: Seq<char>| pre.contains(n) implies n != category@ by {
                let w = choose|w: int| 0 <= w < pre.len() && pre[w] == n;
                assert(old(self).hidden_categories@[w]@ != category@);
            }
            assert(self.hidden_set() =~= old(self).hidden_set().remove(category@));
        }
    }

    /// The queue that one severity has after a record of severity
    /// `rec.level` is ingested: the record appended to its own queue, then
    /// every queue trimmed from the front to the bound.
    pub open spec fn level_after_ingest(self, rec: LogRecord, l: LogLevel) -> Seq<LogRecord> {
        let pushed = if l == rec.level {
            self.level_seq(l).push(rec)
        } else {
            self.level_seq(l)
        };
        pushed.skip(spec_evict(pushed.len(), self.max_records_per_level as nat) as int)
    }

    /// Room in the ledger for one record carrying `cats`: no counter can
    /// overflow the machine word it is stored in.
    pub open spec fn ledger_headroom(self, cats: Seq<Seq<char>>) -> bool {
        forall|n: Seq<char>| #[trigger]
            ledger_count(self.category_counts@, n) + cats.len() <= usize::MAX
    }

    /// Commit one record: raise its categories' counts, append it to its
    /// severity's queue, and enforce the retention bound of every queue.
    /// Raise the ledger by every category occurrence of one new record.
    fn bump_record_counts(counts: &mut Vec<(String, usize)>, cats: &Vec<String>)
        requires
            ledger_keys_unique(old(counts)@),
            forall|n: Seq<char>| #[trigger]
                ledger_count(old(counts)@, n) + cats.deep_view().len() <= usize::MAX,
        ensures
            ledger_keys_unique(final(counts)@),
            forall|n: Seq<char>| #[trigger]
                ledger_count(final(counts)@, n) == ledger_count(old(counts)@, n) + occ_in_cats(
                    cats.deep_view(),
                    n,
                ),
            forall|n: Seq<char>| #[trigger]
                ledger_has_key(final(counts)@, n) <==> (ledger_has_key(old(counts)@, n)
                    || cats.deep_view().contains(n)),
    {
        let ghost cv = cats.deep_view();
        let mut i: usize = 0;
        proof {
            assert forall|n: Seq<char>| #[trigger]
                ledger_count(counts@, n) == ledger_count(old(counts)@, n) + occ_in_cats(
                    cv.take(0),
                    n,
                ) by {
                assert(cv.take(0) =~= Seq::<Seq<char>>::empty());
                assert(occ_in_cats(Seq::<Seq<char>>::empty(), n) == 0);
            }
        }
        while i < cats.len()
            invariant
                cv == cats.deep_view(),
                cv.len() == cats@.len(),
                i <= cv.len(),
                ledger_keys_unique(counts@),
                forall|n: Seq<char>| #[trigger]
                    ledger_count(old(counts)@, n) + cv.len() <= usize::MAX,
                forall|n: Seq<char>| #[trigger]
                    ledger_count(counts@, n) == ledger_count(old(counts)@, n) + occ_in_cats(
                        cv.take(i as int),
                        n,
                    ),
                forall|n: Seq<char>| #[trigger]
                    ledger_has_key(counts@, n) <==> (ledger_has_key(old(counts)@, n)
                        || cv.take(i as int).contains(n)),
            decreases cv.len() - i,
        {
            proof {
                let name = cv[i as int];
                lemma_occ_cats_le_len(cv.take(i as int), name);
                assert(ledger_count(counts@, name) < usize::MAX) by {
                    assert(ledger_count(old(counts)@, name) + cv.len() <= usize::MAX);
                }
            }
            let ghost mid = counts@;
            ledger_bump(counts, &cats[i]);
            proof {
                assert(cv[i as int] == cats@[i as int]@);
                assert forall|n: Seq<char>| #[trigger]
                    ledger_count(counts@, n) == ledger_count(old(counts)@, n) + occ_in_cats(
                        cv.take(i + 1),
                        n,
                    ) by {
                    lemma_occ_cats_take_step(cv, i as int, n);
                }
                assert forall|n: Seq<char>| #[trigger]
                    ledger_has_key(counts@, n) <==> (ledger_has_key(old(counts)@, n) || cv.take(
                        i + 1,
                    ).contains(n)) by {
                    assert(ledger_has_key(counts@, n) <==> (ledger_has_key(mid, n)
                        || n == cv[i as int]));
                    assert(ledger_has_key(mid, n) <==> (ledger_has_key(old(counts)@, n)
                        || cv.take(i as int).contains(n)));
                    if n == cv[i as int] {
                        assert(cv.take(i + 1)[i as int] == n);
                    }
                    if cv.take(i + 1).contains(n) {
                        let w = choose|w: int| 0 <= w < i + 1 && #[trigger] cv.take(i + 1)[w] == n;
                        if w < i {
                            assert(cv.take(i as int)[w] == n);
                        } else {
                            assert(n == cv[i as int]);
                        }
                    }
                    if cv.take(i as int).contains(n) {
                        let w = choose|w: int| 0 <= w < i && #[trigger] cv.take(i as int)[w] == n;
                        assert(cv.take(i + 1)[w] == n);
                    }
                }
            }
            i += 1;
        }
        proof {
            assert(cv.take(cv.len() as int) =~= cv);
        }
    }

    /// Enforce the retention bound of every queue, evicting oldest first
    /// and keeping the ledger consistent.
    fn enforce_limits(&mut self)
        requires
            ledger_keys_unique(old(self).category_counts@),
            old(self).counts_match(),
        ensures
            ledger_keys_unique(final(self).category_counts@),
            final(self).counts_match(),
            forall|l: LogLevel| #[trigger]
                final(self).level_seq(l) == old(self).level_seq(l).skip(
                    spec_evict(
                        old(self).level_seq(l).len(),
                        old(self).max_records_per_level as nat,
                    ) as int,
                ),
            forall|l: LogLevel| #[trigger]
                final(self).level_seq(l).len() <= old(self).max_records_per_level,
            forall|n: Seq<char>| #[trigger]
                ledger_has_key(final(self).category_counts@, n) <==> ledger_has_key(
                    old(self).category_counts@,
                    n,
                ),
            *final(self) == (EguiLogger {
                records_error: final(self).records_error,
                records_warn: final(self).records_warn,
                records_info: final(self).records_info,
                records_debug: final(self).records_debug,
                category_counts: final(self).category_counts,
                ..*old(self)
            }),
    {
        let max = self.max_records_per_level;

        proof {
            assert forall|n: Seq<char>|
                occ_in_records(self.records_error@, n) <= #[trigger] ledger_count(
                    self.category_counts@,
                    n,
                ) by {
                lemma_occ_all(
                    self.records_error@,
                    self.records_warn@,
                    self.records_info@,
                    self.records_debug@,
                    n,
                );
            }
        }
        let ghost st0 = *self;
        enforce_queue(&mut self.records_error, &mut self.category_counts, max);
        proof {
            let k = spec_evict(st0.records_error@.len(), max as nat) as int;
            assert forall|n: Seq<char>| #[trigger]
                ledger_count(self.category_counts@, n) == occ_in_records(
                    self.all_records(),
                    n,
                ) by {
                lemma_occ_all(
                    st0.records_error@,
                    st0.records_warn@,
                    st0.records_info@,
                    st0.records_debug@,
                    n,
                );
                lemma_occ_all(
                    self.records_error@,
                    self.records_warn@,
                    self.records_info@,
                    self.records_debug@,
                    n,
                );
                lemma_occ_records_split(st0.records_error@, k, n);
            }
            assert forall|n: Seq<char>|
                occ_in_records(self.records_warn@, n) <= #[trigger] ledger_count(
                    self.category_counts@,
                    n,
                ) by {
                lemma_occ_all(
                    self.records_error@,
                    self.records_warn@,
                    self.records_info@,
                    self.records_debug@,
                    n,
                );
            }
        }
        let ghost st1 = *self;
        enforce_queue(&mut self.records_warn, &mut self.category_counts, max);
        proof {
            let k = spec_evict(st1.records_warn@.len(), max as nat) as int;
            assert forall|n: Seq<char>| #[trigger]
                ledger_count(self.category_counts@, n) == occ_in_records(
                    self.all_records(),
                    n,
                ) by {
                lemma_occ_all(
                    st1.records_error@,
                    st1.records_warn@,
                    st1.records_info@,
                    st1.records_debug@,
                    n,
                );
                lemma_occ_all(
                    self.records_error@,
                    self.records_warn@,
                    self.records_info@,
                    self.records_debug@,
                    n,
                );
                lemma_occ_records_split(st1.records_warn@, k, n);
            }
            assert forall|n: Seq<char>|
                occ_in_records(self.records_info@, n) <= #[trigger] ledger_count(
                    self.category_counts@,
                    n,
                ) by {
                lemma_occ_all(
                    self.records_error@,
                    self.records_warn@,
                    self.records_info@,
                    self.records_debug@,
                    n,
                );
            }
        }
        let ghost st2 = *self;
        enforce_queue(&mut self.records_info, &mut self.category_counts, max);
        proof {
            let k = spec_evict(st2.records_info@.len(), max as nat) as int;
            assert forall|n: Seq<char>| #[trigger]
                ledger_count(self.category_counts@, n) == occ_in_records(
                    self.all_records(),
                    n,
                ) by {
                lemma_occ_all(
                    st2.records_error@,
                    st2.records_warn@,
                    st2.records_info@,
                    st2.records_debug@,
                    n,
                );
                lemma_occ_all(
                    self.records_error@,
                    self.records_warn@,
                    self.records_info@,
                    self.records_debug@,
                    n,
                );
                lemma_occ_records_split(st2.records_info@, k, n);
            }
            assert forall|n: Seq<char>|
                occ_in_records(self.records_debug@, n) <= #[trigger] ledger_count(
                    self.category_counts@,
                    n,
                ) by {
                lemma_occ_all(
                    self.records_error@,
                    self.records_warn@,
                    self.records_info@,
                    self.records_debug@,
                    n,
                );
            }
        }
        let ghost st3 = *self;
        enforce_queue(&mut self.records_debug, &mut self.category_counts, max);
        proof {
            let k = spec_evict(st3.records_debug@.len(), max as nat) as int;
            assert forall|n: Seq<char>| #[trigger]
                ledger_count(self.category_counts@, n) == occ_in_records(
                    self.all_records(),
                    n,
                ) by {
                lemma_occ_all(
                    st3.records_error@,
                    st3.records_warn@,
                    st3.records_info@,
                    st3.records_debug@,
                    n,
                );
                lemma_occ_all(
                    self.records_error@,
                    self.records_warn@,
                    self.records_info@,
                    self.records_debug@,
                    n,
                );
                lemma_occ_records_split(st3.records_debug@, k, n);
            }
            assert forall|l: LogLevel| #[trigger]
                self.level_seq(l) == old(self).level_seq(l).skip(
                    spec_evict(
                        old(self).level_seq(l).len(),
                        old(self).max_records_per_level as nat,
                    ) as int,
                ) by {
                if l == LogLevel::Error {
                    assert(self.records_error@ == st0.records_error@.skip(
                        spec_evict(st0.records_error@.len(), max as nat) as int,
                    ));
                } else if l == LogLevel::Warn {
                    assert(self.records_warn@ == st1.records_warn@.skip(
                        spec_evict(st1.records_warn@.len(), max as nat) as int,
                    ));
                } else if l == LogLevel::Info {
                    assert(self.records_info@ == st2.records_info@.skip(
                        spec_evict(st2.records_info@.len(), max as nat) as int,
                    ));
                } else {
                    assert(self.records_debug@ == st3.records_debug@.skip(
                        spec_evict(st3.records_debug@.len(), max as nat) as int,
                    ));
                }
            }
        }
    }

    /// Commit one record: raise its categories' counts, append it to its
    /// severity's queue, and enforce the retention bound of every queue.
    #[verifier::rlimit(60)]
    pub fn log_record(&mut self, log_record: LogRecord)
        requires
            old(self).wf(),
            old(self).ledger_headroom(log_record.cats()),
        ensures
            final(self).wf(),
            forall|l: LogLevel| #[trigger]
                final(self).level_seq(l) == old(self).level_after_ingest(log_record, l),
            forall|l: LogLevel| #[trigger]
                final(self).level_seq(l).len() <= old(self).max_records_per_level,
            final(self).categories_seen() =~= old(self).categories_seen().union(
                log_record.cats().to_set(),
            ),
            Self::same_prefs(*old(self), *final(self)),
            Self::same_hidden(*old(self), *final(self)),
            Self::same_pattern(*old(self), *final(self)),
            Self::same_input(*old(self), *final(self)),
    {
        let ghost grec = log_record;
        let ghost cv = log_record.cats();

        Self::bump_record_counts(&mut self.category_counts, &log_record.categories);

        // Append the record to its severity's queue.
        let ghost pre_push = *self;
        match log_record.level {
            LogLevel::Error => self.records_error.push(log_record),
            LogLevel::Warn => self.records_warn.push(log_record),
            LogLevel::Info => self.records_info.push(log_record),
            LogLevel::Debug => self.records_debug.push(log_record),
        }
        proof {
            assert(self.level_seq(grec.level) == pre_push.level_seq(grec.level).push(grec));
            assert forall|n: Seq<char>|
                occ_in_records(self.all_records(), n) == #[trigger] ledger_count(
                    self.category_counts@,
                    n,
                ) by {
                lemma_occ_all(
                    pre_push.records_error@,
                    pre_push.records_warn@,
                    pre_push.records_info@,
                    pre_push.records_debug@,
                    n,
                );
                lemma_occ_all(
                    self.records_error@,
                    self.records_warn@,
                    self.records_info@,
                    self.records_debug@,
                    n,
                );
                lemma_occ_records_push(pre_push.level_seq(grec.level), grec, n);
            }
        }

        let ghost mid = *self;
        self.enforce_limits();
        proof {
            assert forall|l: LogLevel| #[trigger]
                self.level_seq(l) == old(self).level_after_ingest(grec, l) by {
                assert(self.level_seq(l) == mid.level_seq(l).skip(
                    spec_evict(mid.level_seq(l).len(), mid.max_records_per_level as nat) as int,
                ));
                if l != grec.level {
                    assert(mid.level_seq(l) == old(self).level_seq(l));
                }
            }
            assert(self.categories_seen() =~= old(self).categories_seen().union(
                grec.cats().to_set(),
            )) by {
                assert forall|n: Seq<char>|
                    self.categories_seen().contains(n) <==> (old(self).categories_seen().contains(
                        n,
                    ) || grec.cats().to_set().contains(n)) by {
                    assert(grec.cats().to_set().contains(n) == grec.cats().contains(n));
                    assert(ledger_has_key(self.category_counts@, n) <==> ledger_has_key(
                        mid.category_counts@,
                        n,
                    ));
                    assert(ledger_has_key(mid.category_counts@, n) <==> (ledger_has_key(
                        old(self).category_counts@,
                        n,
                    ) || cv.contains(n)));
                }
            }
        }
    }

    /// What `log` commits for given inputs: some record carrying the
    /// given severity and categories, and the message as stored (newlines
    /// stripped, then truncated to the bound), ingested into `pre`.
    pub open spec fn spec_logged(
        pre: Self,
        post: Self,
        rec: LogRecord,
        level: LogLevel,
        cats: Seq<Seq<char>>,
        msg: Seq<char>,
    ) -> bool {
        &&& rec.level == level
        &&& rec.cats() == cats
        &&& rec.message@ == spec_truncate(spec_strip_newlines(msg), pre.max_message_length as nat)
        &&& forall|l: LogLevel| #[trigger] post.level_seq(l) == pre.level_after_ingest(rec, l)
    }

    /// Truncate a record's message to the configured bound; the other
    /// fields are left alone. Already-stored records are never revisited.
    fn clean_record(&self, record: &mut LogRecord)
        ensures
            final(record).message@ == spec_truncate(
                old(record).message@,
                self.max_message_length as nat,
            ),
            final(record).timestamp == old(record).timestamp,
            final(record).level == old(record).level,
            final(record).categories == old(record).categories,
    {
        let len = record.message.as_str().unicode_len();
        if len > self.max_message_length {
            let keep: usize = if self.max_message_length >= 3 {
                self.max_message_length - 3
            } else {
                0
            };
            let prefix = record.message.as_str().substring_char(0, keep);
            let mut m = String::from_str(prefix);
            m.append("...");
            record.message = m;
        }
    }

    /// Build the record that `log` would commit: categories converted to
    /// strings in order, newlines stripped from the message, and the
    /// current time as timestamp.
    pub fn get_log_record<C: IntoCategories>(level: LogLevel, categories: C, message: &str) -> (r:
        LogRecord)
        ensures
            r.level == level,
            r.cats() == categories.spec_categories(),
            r.message@ == spec_strip_newlines(message@),
    {
        let category_strs = categories.into_categories();
        let cleaned_message = strip_newlines(message);
        LogRecord {
            timestamp: now_millis(),
            level,
            categories: category_strs,
            message: cleaned_message,
        }
    }

    /// Log a message with the given severity and categories.
    pub fn log<C: IntoCategories>(&mut self, level: LogLevel, categories: C, message: &str)
        requires
            old(self).wf(),
            old(self).ledger_headroom(categories.spec_categories()),
        ensures
            final(self).wf(),
            exists|rec: LogRecord| #[trigger]
                Self::spec_logged(
                    *old(self),
                    *final(self),
                    rec,
                    level,
                    categories.spec_categories(),
                    message@,
                ),
            forall|l: LogLevel| #[trigger]
                final(self).level_seq(l).len() <= old(self).max_records_per_level,
            final(self).categories_seen() =~= old(self).categories_seen().union(
                categories.spec_categories().to_set(),
            ),
            Self::same_prefs(*old(self), *final(self)),
            Self::same_hidden(*old(self), *final(self)),
            Self::same_pattern(*old(self), *final(self)),
            Self::same_input(*old(self), *final(self)),
    {
        let mut record = Self::get_log_record(level, categories, message);
        self.clean_record(&mut record);
        let ghost grec = record;
        self.log_record(record);
        proof {
            assert(Self::spec_logged(
                *old(self),
                *self,
                grec,
                level,
                categories.spec_categories(),
                message@,
            ));
        }
    }

    /// Log a message at `Error` severity.
    pub fn log_error<C: IntoCategories>(&mut self, categories: C, message: &str)
        requires
            old(self).wf(),
            old(self).ledger_headroom(categories.spec_categories()),
        ensures
            final(self).wf(),
            exists|rec: LogRecord| #[trigger]
                Self::spec_logged(
                    *old(self),
                    *final(self),
                    rec,
                    LogLevel::Error,
                    categories.spec_categories(),
                    message@,
                ),
            Self::same_prefs(*old(self), *final(self)),
    {
        self.log(LogLevel::Error, categories, message);
    }

    /// Log a message at `Warn` severity.
    pub fn log_warn<C: IntoCategories>(&mut self, categories: C, message: &str)
        requires
            old(self).wf(),
            old(self).ledger_headroom(categories.spec_categories()),
        ensures
            final(self).wf(),
            exists|rec: LogRecord| #[trigger]
                Self::spec_logged(
                    *old(self),
                    *final(self),
                    rec,
                    LogLevel::Warn,
                    categories.spec_categories(),
                    message@,
                ),
            Self::same_prefs(*old(self), *final(self)),
    {
        self.log(LogLevel::Warn, categories, message);
    }

    /// Log a message at `Info` severity.
    pub fn log_info<C: IntoCategories>(&mut self, categories: C, message: &str)
        requires
            old(self).wf(),
            old(self).ledger_headroom(categories.spec_categories()),
        ensures
            final(self).wf(),
            exists|rec: LogRecord| #[trigger]
                Self::spec_logged(
                    *old(self),
                    *final(self),
                    rec,
                    LogLevel::Info,
                    categories.spec_categories(),
                    message@,
                ),
            Self::same_prefs(*old(self), *final(self)),
    {
        self.log(LogLevel::Info, categories, message);
    }

    /// Log a message at `Debug` severity.
    pub fn log_debug<C: IntoCategories>(&mut self, categories: C, message: &str)
        requires
            old(self).wf(),
            old(self).ledger_headroom(categories.spec_categories()),
        ensures
            final(self).wf(),
            exists|rec: LogRecord| #[trigger]
                Self::spec_logged(
                    *old(self),
                    *final(self),
                    rec,
                    LogLevel::Debug,
                    categories.spec_categories(),
                    message@,
                ),
            Self::same_prefs(*old(self), *final(self)),
    {
        self.log(LogLevel::Debug, categories, message);
    }

    /// Replace the categories applied to records created from user input.
    pub fn set_input_categories(&mut self, categories: Vec<String>)
        ensures
            final(self).input_categories == categories,
            *final(self) == (EguiLogger {
                input_categories: final(self).input_categories,
                ..*old(self)
            }),
    {
        self.input_categories = categories;
    }

    /// The categories applied to records created from user input.
    pub fn input_categories(&self) -> (r: &[String])
        ensures
            r@ == self.input_categories@,
    {
        self.input_categories.as_slice()
    }

    /// The text currently in the input box.
    pub fn input_text(&self) -> (r: &str)
        ensures
            r@ == self.input_text@,
    {
        self.input_text.as_str()
    }

    /// Borrow the input box's text for editing.
    pub fn input_text_mut(&mut self) -> (r: &mut String)
        ensures
            *r == old(self).input_text,
            *final(self) == (EguiLogger { input_text: *final(r), ..*old(self) }),
    {
        &mut self.input_text
    }

    /// Take the input box's text out, leaving it empty.
    pub fn take_input_text(&mut self) -> (r: String)
        ensures
            r == old(self).input_text,
            final(self).input_text@ == Seq::<char>::empty(),
            *final(self) == (EguiLogger { input_text: final(self).input_text, ..*old(self) }),
    {
        let r = self.input_text.clone();
        self.input_text = String::new();
        r
    }

    /// Whether the rendering layer was asked to focus the search box.
    pub fn should_focus_search(&self) -> (r: bool)
        ensures
            r == self.should_focus_search,
    {
        self.should_focus_search
    }

    /// Ask the rendering layer to focus the search box, or withdraw that.
    pub fn set_should_focus_search(&mut self, value: bool)
        ensures
            final(self).should_focus_search == value,
            *final(self) == (EguiLogger {
                should_focus_search: final(self).should_focus_search,
                ..*old(self)
            }),
    {
        self.should_focus_search = value;
    }

    /// Render one timestamp under the current format and precision; every
    /// shown rendering carries one trailing space.
    pub fn format_time(&self, timestamp: i64) -> (r: String)
        ensures
            self.time_format == TimeFormat::Hide ==> r@ == Seq::<char>::empty(),
            self.time_format == TimeFormat::Utc ==> r@ == self.utc_shown(timestamp),
            self.time_format == TimeFormat::LocalTime ==> exists|t: Seq<char>|
                r@ == #[trigger] spec_spaced(t),
            self.time_format != TimeFormat::Hide ==> r@.len() >= 1,
    {
        proof {
            reveal_strlit(" ");
        }
        let with_millis = match self.time_precision {
            TimePrecision::Milliseconds => true,
            TimePrecision::Seconds => false,
        };
        match self.time_format {
            TimeFormat::Utc => {
                let mut t = render_utc(timestamp, with_millis);
                t.append(" ");
                t
            },
            TimeFormat::LocalTime => {
                let mut t = render_local(timestamp, with_millis);
                let ghost bare = t@;
                t.append(" ");
                proof {
                    assert(t@ == spec_spaced(bare));
                }
                t
            },
            TimeFormat::Hide => String::new(),
        }
    }

    /// Width that timestamps are padded to, taken from rendering the
    /// current time, so all rows align: zero with timestamps hidden, else
    /// the length of some rendering of the clock, trailing space included.
    pub fn get_time_format_padding(&self) -> (r: usize)
        ensures
            self.time_format == TimeFormat::Hide ==> r == 0,
            self.time_format == TimeFormat::Utc ==> exists|ts: i64|
                r == #[trigger] self.utc_shown(ts).len(),
            self.time_format == TimeFormat::LocalTime ==> exists|t: Seq<char>|
                r == #[trigger] spec_spaced(t).len(),
            self.time_format != TimeFormat::Hide ==> r >= 1,
    {
        let now = now_millis();
        let t = self.format_time(now);
        let r = t.as_str().unicode_len();
        proof {
            if self.time_format == TimeFormat::Utc {
                assert(r == self.utc_shown(now).len());
            }
        }
        r
    }

    /// What may stand as the padded timestamp of a record's display line:
    /// empty when hidden; the RFC-3339 rendering, padded to some width,
    /// in UTC mode; some space-terminated rendering, padded, in local
    /// mode.
    pub open spec fn padded_time_ok(self, timestamp: i64, padded: Seq<char>) -> bool {
        match self.time_format {
            TimeFormat::Hide => padded == Seq::<char>::empty(),
            TimeFormat::Utc => exists|w: nat|
                padded == #[trigger] spec_pad_left(self.utc_shown(timestamp), w),
            TimeFormat::LocalTime => exists|t: Seq<char>, w: nat|
                padded == #[trigger] spec_pad_left(spec_spaced(t), w),
        }
    }

    /// The UTC rendering of a timestamp as it stands in a display line,
    /// with its trailing space.
    pub open spec fn utc_shown(self, timestamp: i64) -> Seq<char> {
        rfc3339_utc(timestamp as int, self.time_precision == TimePrecision::Milliseconds) + " "@
    }

    /// The text content of one record's display line, as search matches
    /// it: padded timestamp, optional severity tag, optional category
    /// tag, then the message.
    pub fn format_record_text(&self, record: &LogRecord) -> (r: String)
        ensures
            exists|padded: Seq<char>|
                #[trigger] self.padded_time_ok(record.timestamp, padded) && r@ == spec_line(
                    self.show_level,
                    self.show_categories,
                    record.level,
                    record.cats(),
                    record.message@,
                    padded,
                ),
    {
        let time_str = self.format_time(record.timestamp);
        let width = self.get_time_format_padding();
        let mut line = pad_left(time_str.as_str(), width);
        let ghost padded = line@;
        if self.show_level {
            line.append("[");
            line.append(record.level.as_str());
            line.append("] ");
        }
        if self.show_categories {
            line.append("[");
            let cats = join_commas(&record.categories);
            line.append(cats.as_str());
            line.append("] ");
        }
        line.append(record.message.as_str());
        proof {
            assert(self.padded_time_ok(record.timestamp, padded)) by {
                match self.time_format {
                    TimeFormat::Hide => {
                        assert(padded =~= Seq::<char>::empty());
                    },
                    TimeFormat::Utc => {
                        assert(padded == spec_pad_left(
                            self.utc_shown(record.timestamp),
                            width as nat,
                        ));
                    },
                    TimeFormat::LocalTime => {
                        let t = choose|t: Seq<char>| time_str@ == #[trigger] spec_spaced(t);
                        assert(padded == spec_pad_left(spec_spaced(t), width as nat));
                    },
                }
            }
            assert(line@ =~= spec_line(
                self.show_level,
                self.show_categories,
                record.level,
                record.cats(),
                record.message@,
                padded,
            ));
        }
        line
    }

    /// Whether a record's severity passes the minimum-severity gate.
    pub open spec fn sev_ok(self, level: LogLevel) -> bool {
        severity(level) >= severity(self.min_display_level)
    }

    /// Whether any of a record's categories is hidden; one hidden
    /// category rejects the whole record.
    pub open spec fn cat_hidden(self, rec: LogRecord) -> bool {
        exists|i: int|
            0 <= i < rec.cats().len() && self.hidden_set().contains(#[trigger] rec.cats()[i])
    }

    /// The severity and category gates together; the search gate follows
    /// them.
    pub open spec fn gates_admit(self, rec: LogRecord) -> bool {
        self.sev_ok(rec.level) && !self.cat_hidden(rec)
    }

    /// The severity and category gates as one predicate value, so that
    /// `Seq::filter` can take it.
    pub open spec fn gate_pred(self) -> spec_fn(LogRecord) -> bool {
        |rec: LogRecord| self.gates_admit(rec)
    }

    /// Whether the search gate cannot reject any record: the term is
    /// empty, or regex search is on with no compiled pattern, in which
    /// case search fails open.
    pub open spec fn search_inactive(self) -> bool {
        self.search_term@.len() == 0 || (self.search_with_regex && self.search_pattern is None)
    }

    /// The search gate's verdict on a rendered line: the compiled
    /// pattern's match in regex mode (everything passes with none
    /// compiled), else substring containment, lowercased first unless
    /// case-sensitive.
    pub open spec fn spec_search_hit(self, line: Seq<char>) -> bool {
        if self.search_with_regex {
            match self.search_pattern {
                Some(p) => regex_accepts(p.term@, p.case_insensitive, line),
                None => true,
            }
        } else if self.search_with_case_sensitive {
            spec_contains(line, self.search_term@)
        } else {
            spec_contains(lower_of(line), lower_of(self.search_term@))
        }
    }

    /// What the search gate let through for a record that was admitted:
    /// either no term is set, or the record's rendered line — with some
    /// admissible padded timestamp — satisfied the search verdict.
    pub open spec fn search_hit_ok(self, rec: LogRecord) -> bool {
        self.search_term@.len() == 0 || exists|padded: Seq<char>|
            #[trigger] self.padded_time_ok(rec.timestamp, padded) && self.spec_search_hit(
                spec_line(
                    self.show_level,
                    self.show_categories,
                    rec.level,
                    rec.cats(),
                    rec.message@,
                    padded,
                ),
            )
    }

    /// The full verdict on a record while timestamps are hidden: with no
    /// time in the line, the rendered text is pinned, so all three gates
    /// are an exact function of the record and the preferences.
    pub open spec fn hide_line_admit(self, rec: LogRecord) -> bool {
        self.gates_admit(rec) && (self.search_term@.len() == 0 || self.spec_search_hit(
            spec_line(
                self.show_level,
                self.show_categories,
                rec.level,
                rec.cats(),
                rec.message@,
                Seq::<char>::empty(),
            ),
        ))
    }

    /// The hidden-timestamp verdict as one predicate value, so that
    /// `Seq::filter` can take it.
    pub open spec fn hide_pred(self) -> spec_fn(LogRecord) -> bool {
        |rec: LogRecord| self.hide_line_admit(rec)
    }

    /// Whether a record passes all three gates: severity, category
    /// visibility, and search.
    pub fn matches_filters(&self, record: &LogRecord) -> (r: bool)
        ensures
            !self.gates_admit(*record) ==> r == false,
            self.gates_admit(*record) && self.search_inactive() ==> r == true,
            self.gates_admit(*record) && self.search_term@.len() > 0 && self.time_format
                == TimeFormat::Hide ==> r == self.spec_search_hit(
                spec_line(
                    self.show_level,
                    self.show_categories,
                    record.level,
                    record.cats(),
                    record.message@,
                    Seq::<char>::empty(),
                ),
            ),
            self.gates_admit(*record) && self.search_term@.len() > 0 ==> exists|
                padded: Seq<char>,
            |
                #[trigger] self.padded_time_ok(record.timestamp, padded) && r
                    == self.spec_search_hit(
                    spec_line(
                        self.show_level,
                        self.show_categories,
                        record.level,
                        record.cats(),
                        record.message@,
                        padded,
                    ),
                ),
    {
        if record.level.rank() < self.min_display_level.rank() {
            return false;
        }
        if !self.hidden_categories.is_empty() {
            let mut i: usize = 0;
            while i < record.categories.len()
                invariant
                    i <= record.categories@.len(),
                    record.cats().len() == record.categories@.len(),
                    forall|j: int|
                        0 <= j < i ==> !self.hidden_set().contains(#[trigger] record.cats()[j]),
                decreases record.categories@.len() - i,
            {
                if self.is_category_hidden(record.categories[i].as_str()) {
                    proof {
                        assert(record.cats()[i as int] == record.categories@[i as int]@);
                    }
                    return false;
                }
                proof {
                    assert(record.cats()[i as int] == record.categories@[i as int]@);
                }
                i += 1;
            }
        }
        if !self.search_term.as_str().is_empty() {
            let formatted = self.format_record_text(record);
            let hit: bool = if self.search_with_regex {
                match &self.search_pattern {
                    None => true,
                    Some(p) => regex_term_matches(
                        p.term.as_str(),
                        p.case_insensitive,
                        formatted.as_str(),
                    ),
                }
            } else if self.search_with_case_sensitive {
                contains_substr(formatted.as_str(), self.search_term.as_str())
            } else {
                let lower_line = to_lowercase(formatted.as_str());
                let lower_term = to_lowercase(self.search_term.as_str());
                contains_substr(lower_line.as_str(), lower_term.as_str())
            };
            return hit;
        }
        true
    }

    /// Recompile the search pattern from the current term; called by the
    /// rendering layer when the term or the case flag changes, and only
    /// while regex search is on. A term that does not compile leaves no
    /// pattern, so the search gate fails open.
    pub fn update_search_regex(&mut self)
        ensures
            old(self).search_with_regex ==> (match final(self).search_pattern {
                Some(p) => regex_valid(
                    old(self).search_term@,
                    !old(self).search_with_case_sensitive,
                ) && p.term == old(self).search_term && p.case_insensitive == !old(
                    self,
                ).search_with_case_sensitive,
                None => !regex_valid(
                    old(self).search_term@,
                    !old(self).search_with_case_sensitive,
                ),
            }),
            !old(self).search_with_regex ==> final(self).search_pattern == old(
                self,
            ).search_pattern,
            *final(self) == (EguiLogger {
                search_pattern: final(self).search_pattern,
                ..*old(self)
            }),
    {
        if self.search_with_regex {
            let ci = !self.search_with_case_sensitive;
            if regex_term_valid(self.search_term.as_str(), ci) {
                self.search_pattern = Some(
                    SearchPattern { term: self.search_term.clone(), case_insensitive: ci },
                );
            } else {
                self.search_pattern = None;
            }
        }
    }

    /// Bound the search term: control characters and newlines removed,
    /// and at most 512 characters kept, so pathological input cannot blow
    /// up pattern compilation.
    pub fn sanitize_search_term(&mut self)
        ensures
            final(self).search_term@ == spec_sanitize(old(self).search_term@, 512),
            *final(self) == (EguiLogger { search_term: final(self).search_term, ..*old(self) }),
    {
        let cleaned = sanitize_term(self.search_term.as_str(), 512);
        self.search_term = cleaned;
    }

    /// The stored records that pass the severity and category gates, in
    /// storage order.
    pub open spec fn spec_gate_filtered(self) -> Seq<LogRecord> {
        self.all_records().filter(self.gate_pred())
    }

    /// Append to `out` a reference to each record of one queue that
    /// passes the current filters.
    fn filter_into<'a>(&'a self, records: &'a Vec<LogRecord>, out: &mut Vec<&'a LogRecord>)
        ensures
            final(out)@.len() >= old(out)@.len(),
            forall|i: int| 0 <= i < old(out)@.len() ==> final(out)@[i] == old(out)@[i],
            final(out)@.len() <= old(out)@.len() + records@.len(),
            subseq_of(deref_recs(final(out)@).skip(old(out)@.len() as int), records@),
            forall|i: int|
                old(out)@.len() <= i < final(out)@.len() ==> self.gates_admit(
                    *#[trigger] final(out)@[i],
                ) && records@.contains(*final(out)@[i]) && self.search_hit_ok(*final(out)@[i]),
            self.search_inactive() ==> deref_recs(final(out)@) == deref_recs(old(out)@)
                + records@.filter(self.gate_pred()),
            self.time_format == TimeFormat::Hide ==> deref_recs(final(out)@) == deref_recs(
                old(out)@,
            ) + records@.filter(self.hide_pred()),
    {
        let ghost base = out@;
        let mut i: usize = 0;
        proof {
            reveal(Seq::filter);
            assert(records@.take(0) =~= Seq::<LogRecord>::empty());
            assert(deref_recs(base) + records@.take(0).filter(self.gate_pred()) =~= deref_recs(
                base,
            ));
            assert(deref_recs(base).skip(base.len() as int) =~= Seq::<LogRecord>::empty());
        }
        while i < records.len()
            invariant
                base == old(out)@,
                i <= records@.len(),
                out@.len() >= base.len(),
                forall|j: int| 0 <= j < base.len() ==> out@[j] == base[j],
                out@.len() <= base.len() + i,
                subseq_of(deref_recs(out@).skip(base.len() as int), records@.take(i as int)),
                forall|j: int|
                    base.len() <= j < out@.len() ==> self.gates_admit(*#[trigger] out@[j])
                        && records@.contains(*out@[j]) && self.search_hit_ok(*out@[j]),
                self.search_inactive() ==> deref_recs(out@) == deref_recs(base) + records@.take(
                    i as int,
                ).filter(self.gate_pred()),
                self.time_format == TimeFormat::Hide ==> deref_recs(out@) == deref_recs(base)
                    + records@.take(i as int).filter(self.hide_pred()),
            decreases records@.len() - i,
        {
            let ghost prev = out@;
            let m = self.matches_filters(&records[i]);
            if m {
                out.push(&records[i]);
            }
            proof {
                reveal(Seq::filter);
                let pred = self.gate_pred();
                assert(records@.take(i + 1).drop_last() =~= records@.take(i as int));
                assert(records@.take(i + 1).last() == records@[i as int]);
                assert(pred(records@[i as int]) == self.gates_admit(records@[i as int]));
                if m {
                    assert(self.gates_admit(records@[i as int]));
                    assert(self.search_hit_ok(records@[i as int]));
                    assert(deref_recs(out@) =~= deref_recs(prev).push(records@[i as int]));
                }
                assert(records@.take(i + 1) =~= records@.take(i as int).push(records@[i as int]));
                if m {
                    assert(deref_recs(out@).skip(base.len() as int) =~= deref_recs(prev).skip(
                        base.len() as int,
                    ).push(records@[i as int]));
                    lemma_subseq_push_both(
                        deref_recs(prev).skip(base.len() as int),
                        records@.take(i as int),
                        records@[i as int],
                    );
                } else {
                    lemma_subseq_grow(
                        deref_recs(out@).skip(base.len() as int),
                        records@.take(i as int),
                        records@[i as int],
                    );
                }
                if self.search_inactive() {
                    assert(m == self.gates_admit(records@[i as int]));
                    if m {
                        assert(deref_recs(out@) =~= deref_recs(base) + records@.take(i + 1).filter(
                            pred,
                        ));
                    } else {
                        assert(records@.take(i + 1).filter(pred) == records@.take(i as int).filter(
                            pred,
                        ));
                    }
                }
                if self.time_format == TimeFormat::Hide {
                    let hpred = self.hide_pred();
                    assert(hpred(records@[i as int]) == self.hide_line_admit(records@[i as int]));
                    assert(m == self.hide_line_admit(records@[i as int])) by {
                        if self.gates_admit(records@[i as int]) && self.search_term@.len() > 0 {
                            assert(self.padded_time_ok(
                                records@[i as int].timestamp,
                                Seq::<char>::empty(),
                            ));
                        }
                    }
                    if m {
                        assert(deref_recs(out@) =~= deref_recs(base) + records@.take(i + 1).filter(
                            hpred,
                        ));
                    } else {
                        assert(records@.take(i + 1).filter(hpred) == records@.take(
                            i as int,
                        ).filter(hpred));
                    }
                }
            }
            i += 1;
        }
        proof {
            assert(records@.take(records@.len() as int) =~= records@);
        }
    }

    /// The stored records that pass the current filters, one queue after
    /// another in storage order; display paths sort by timestamp
    /// afterwards when a chronological view is wanted.
    pub fn filtered_records(&self) -> (r: Vec<&LogRecord>)
        ensures
            r@.len() <= self.spec_total(),
            forall|i: int|
                0 <= i < r@.len() ==> self.gates_admit(*#[trigger] r@[i])
                    && self.all_records().contains(*r@[i]) && self.search_hit_ok(*r@[i]),
            self.search_inactive() ==> deref_recs(r@) == self.spec_gate_filtered(),
            self.time_format == TimeFormat::Hide ==> deref_recs(r@) == self.all_records().filter(
                self.hide_pred(),
            ),
            exists|n1: int, n2: int, n3: int|
                #![trigger deref_recs(r@).subrange(0, n1), deref_recs(r@).subrange(n1, n2), deref_recs(r@).subrange(n2, n3)]
                0 <= n1 <= n2 <= n3 <= r@.len() && subseq_of(
                    deref_recs(r@).subrange(0, n1),
                    self.level_seq(LogLevel::Error),
                ) && subseq_of(
                    deref_recs(r@).subrange(n1, n2),
                    self.level_seq(LogLevel::Warn),
                ) && subseq_of(
                    deref_recs(r@).subrange(n2, n3),
                    self.level_seq(LogLevel::Info),
                ) && subseq_of(
                    deref_recs(r@).subrange(n3, r@.len() as int),
                    self.level_seq(LogLevel::Debug),
                ),
    {
        let mut out: Vec<&LogRecord> = Vec::new();
        self.filter_into(&self.records_error, &mut out);
        let ghost o1 = out@;
        let ghost n1 = out@.len() as int;
        self.filter_into(&self.records_warn, &mut out);
        let ghost o2 = out@;
        let ghost n2 = out@.len() as int;
        self.filter_into(&self.records_info, &mut out);
        let ghost o3 = out@;
        let ghost n3 = out@.len() as int;
        self.filter_into(&self.records_debug, &mut out);
        proof {
            let e = self.records_error@;
            let w = self.records_warn@;
            let f = self.records_info@;
            let d = self.records_debug@;
            assert forall|i: int|
                0 <= i < out@.len() implies self.gates_admit(*#[trigger] out@[i])
                && self.all_records().contains(*out@[i]) && self.search_hit_ok(*out@[i]) by {
                if i < n1 {
                    lemma_concat_contains(e, w, *out@[i]);
                } else if i < n2 {
                    lemma_concat_contains(e, w, *out@[i]);
                } else if i < n3 {
                    lemma_concat_contains(e + w, f, *out@[i]);
                } else {
                    lemma_concat_contains(e + w + f, d, *out@[i]);
                }
                if i < n2 {
                    lemma_concat_contains(e + w, f, *out@[i]);
                    lemma_concat_contains(e + w + f, d, *out@[i]);
                } else if i < n3 {
                    lemma_concat_contains(e + w + f, d, *out@[i]);
                }
            }
            if self.search_inactive() {
                let pred = self.gate_pred();
                Seq::filter_distributes_over_add(e, w, pred);
                Seq::filter_distributes_over_add(e + w, f, pred);
                Seq::filter_distributes_over_add(e + w + f, d, pred);
                assert(deref_recs(Seq::<&LogRecord>::empty()) =~= Seq::<LogRecord>::empty());
                assert(deref_recs(out@) =~= self.spec_gate_filtered());
            }
            if self.time_format == TimeFormat::Hide {
                let hpred = self.hide_pred();
                Seq::filter_distributes_over_add(e, w, hpred);
                Seq::filter_distributes_over_add(e + w, f, hpred);
                Seq::filter_distributes_over_add(e + w + f, d, hpred);
                assert(deref_recs(Seq::<&LogRecord>::empty()) =~= Seq::<LogRecord>::empty());
                assert(deref_recs(out@) =~= self.all_records().filter(hpred));
            }
            assert(deref_recs(out@).subrange(0, n1) =~= deref_recs(o1).skip(0));
            assert(deref_recs(out@).subrange(n1, n2) =~= deref_recs(o2).skip(n1));
            assert(deref_recs(out@).subrange(n2, n3) =~= deref_recs(o3).skip(n2));
            assert(deref_recs(out@).subrange(n3, out@.len() as int) =~= deref_recs(out@).skip(
                n3,
            ));
            assert(subseq_of(deref_recs(out@).subrange(0, n1), e));
            assert(subseq_of(deref_recs(out@).subrange(n1, n2), w));
            assert(subseq_of(deref_recs(out@).subrange(n2, n3), f));
            assert(subseq_of(deref_recs(out@).subrange(n3, out@.len() as int), d));
        }
        out
    }

    /// References to every stored record, one queue after another in
    /// storage order.
    pub fn records(&self) -> (r: Vec<&LogRecord>)
        ensures
            deref_recs(r@) == self.all_records(),
    {
        let mut out: Vec<&LogRecord> = Vec::new();
        proof {
            assert(deref_recs(out@) =~= Seq::<LogRecord>::empty());
        }
        Self::refs_into(&self.records_error, &mut out);
        Self::refs_into(&self.records_warn, &mut out);
        Self::refs_into(&self.records_info, &mut out);
        Self::refs_into(&self.records_debug, &mut out);
        proof {
            assert(deref_recs(out@) =~= self.all_records());
        }
        out
    }

    /// Append a reference to each record of one queue, in order.
    fn refs_into<'a>(records: &'a Vec<LogRecord>, out: &mut Vec<&'a LogRecord>)
        ensures
            deref_recs(final(out)@) == deref_recs(old(out)@) + records@,
    {
        let mut i: usize = 0;
        proof {
            assert(deref_recs(out@) =~= deref_recs(old(out)@) + records@.take(0));
        }
        while i < records.len()
            invariant
                i <= records@.len(),
                deref_recs(out@) == deref_recs(old(out)@) + records@.take(i as int),
            decreases records@.len() - i,
        {
            let ghost prev = out@;
            out.push(&records[i]);
            proof {
                assert(deref_recs(out@) =~= deref_recs(prev).push(records@[i as int]));
                assert(deref_recs(prev).push(records@[i as int]) =~= deref_recs(old(out)@)
                    + records@.take(i + 1));
            }
            i += 1;
        }
        proof {
            assert(records@.take(records@.len() as int) =~= records@);
        }
    }
}

/// The ledger count of every category name equals the number of
/// (record, category-occurrence) pairs for it across the four queues, in
/// every well-formed store.
pub proof fn lemma_category_count_consistency(l: EguiLogger, name: Seq<char>)
    requires
        l.wf(),
    ensures
        l.spec_category_count(name) == occ_in_records(l.all_records(), name),
{
}

/// Truncation keeps a message of at most `max` characters unchanged, and
/// replaces a longer one by exactly `max` characters that end in the
/// marker `"..."` (for any bound that has room for the marker).
pub proof fn lemma_truncation(msg: Seq<char>, max: nat)
    requires
        max >= 3,
    ensures
        msg.len() <= max ==> spec_truncate(msg, max) == msg,
        msg.len() > max ==> spec_truncate(msg, max).len() == max,
        msg.len() > max ==> spec_truncate(msg, max).skip(max - 3) == "..."@,
{
    reveal_strlit("...");
    if msg.len() > max {
        assert(spec_truncate(msg, max).skip(max - 3) =~= "..."@);
    }
}

/// A record with any hidden category is rejected entirely, whatever its
/// other categories.
pub proof fn lemma_category_all_or_nothing(l: EguiLogger, rec: LogRecord, i: int)
    requires
        0 <= i < rec.cats().len(),
        l.hidden_set().contains(rec.cats()[i]),
    ensures
        !l.gates_admit(rec),
{
}

/// Filtering by the gates gives the same records under two predicates
/// that agree on every record.
proof fn lemma_filter_congruence(
    s: Seq<LogRecord>,
    p: spec_fn(LogRecord) -> bool,
    q: spec_fn(LogRecord) -> bool,
)
    requires
        forall|x: LogRecord| #[trigger] p(x) == q(x),
    ensures
        s.filter(p) == s.filter(q),
    decreases s.len(),
{
    reveal(Seq::filter);
    if s.len() > 0 {
        lemma_filter_congruence(s.drop_last(), p, q);
    }
}

/// Search fails open: whenever the search gate cannot reject (the term
/// is empty, or regex search is on with no compiled pattern, as after an
/// invalid pattern), the filtered view is decided by the severity and
/// category gates alone — so a store with an uncompilable pattern shows
/// the same records as one with an empty term.
pub proof fn lemma_search_fail_open(a: EguiLogger, b: EguiLogger)
    requires
        a.search_inactive(),
        b.search_inactive(),
        a.all_records() == b.all_records(),
        a.hidden_set() == b.hidden_set(),
        a.min_display_level == b.min_display_level,
    ensures
        a.spec_gate_filtered() == b.spec_gate_filtered(),
{
    assert forall|x: LogRecord| #[trigger] a.gate_pred()(x) == b.gate_pred()(x) by {
        assert(a.gates_admit(x) == b.gates_admit(x)) by {
            assert(a.sev_ok(x.level) == b.sev_ok(x.level));
            assert(a.cat_hidden(x) == b.cat_hidden(x)) by {
                if a.cat_hidden(x) {
                    let i = choose|i: int|
                        0 <= i < x.cats().len() && a.hidden_set().contains(#[trigger] x.cats()[i]);
                    assert(b.hidden_set().contains(x.cats()[i]));
                }
                if b.cat_hidden(x) {
                    let i = choose|i: int|
                        0 <= i < x.cats().len() && b.hidden_set().contains(#[trigger] x.cats()[i]);
                    assert(a.hidden_set().contains(x.cats()[i]));
                }
            }
        }
    }
    lemma_filter_congruence(a.all_records(), a.gate_pred(), b.gate_pred());
}

/// Clearing is idempotent: after one `clear` the store holds no records
/// and no categories, and a second `clear` finds and leaves that same
/// state, preferences untouched.
pub proof fn lemma_clear_idempotent(a: EguiLogger, b: EguiLogger, c: EguiLogger)
    requires
        EguiLogger::clear_post(a, b),
        EguiLogger::clear_post(b, c),
    ensures
        b.spec_total() == 0,
        c.spec_total() == 0,
        b.categories_seen() =~= Set::<Seq<char>>::empty(),
        c.categories_seen() =~= Set::<Seq<char>>::empty(),
        c.all_records() == b.all_records(),
        EguiLogger::same_prefs(b, c),
        EguiLogger::same_prefs(a, c),
{
    assert(b.all_records() =~= Seq::<LogRecord>::empty()) by {
        assert(b.level_seq(LogLevel::Error) == Seq::<LogRecord>::empty());
        assert(b.level_seq(LogLevel::Warn) == Seq::<LogRecord>::empty());
        assert(b.level_seq(LogLevel::Info) == Seq::<LogRecord>::empty());
        assert(b.level_seq(LogLevel::Debug) == Seq::<LogRecord>::empty());
    }
    assert(c.all_records() =~= Seq::<LogRecord>::empty()) by {
        assert(c.level_seq(LogLevel::Error) == Seq::<LogRecord>::empty());
        assert(c.level_seq(LogLevel::Warn) == Seq::<LogRecord>::empty());
        assert(c.level_seq(LogLevel::Info) == Seq::<LogRecord>::empty());
        assert(c.level_seq(LogLevel::Debug) == Seq::<LogRecord>::empty());
    }
}

/// A higher minimum display severity admits fewer records: whatever
/// passes the severity and category gates at the higher threshold also
/// passes them at the lower, the stores and hidden categories being equal.
pub proof fn lemma_severity_monotonic(lax: EguiLogger, strict: EguiLogger)
    requires
        severity(lax.min_display_level) <= severity(strict.min_display_level),
        lax.all_records() == strict.all_records(),
        lax.hidden_set() == strict.hidden_set(),
    ensures
        forall|rec: LogRecord| #[trigger] strict.gates_admit(rec) ==> lax.gates_admit(rec),
        forall|rec: LogRecord| #[trigger]
            strict.spec_gate_filtered().contains(rec) ==> lax.spec_gate_filtered().contains(rec),
{
    assert forall|rec: LogRecord| #[trigger] strict.gates_admit(rec) implies lax.gates_admit(
        rec,
    ) by {
        if strict.cat_hidden(rec) {
            let i = choose|i: int|
                0 <= i < rec.cats().len() && strict.hidden_set().contains(#[trigger] rec.cats()[i]);
            assert(lax.hidden_set().contains(rec.cats()[i]));
        }
        if lax.cat_hidden(rec) {
            let i = choose|i: int|
                0 <= i < rec.cats().len() && lax.hidden_set().contains(#[trigger] rec.cats()[i]);
            assert(strict.hidden_set().contains(rec.cats()[i]));
        }
    }
    assert forall|rec: LogRecord| #[trigger]
        strict.spec_gate_filtered().contains(rec) implies lax.spec_gate_filtered().contains(
        rec,
    ) by {
        let sf = strict.spec_gate_filtered();
        let i = choose|i: int| 0 <= i < sf.len() && sf[i] == rec;
        strict.all_records().lemma_filter_pred(strict.gate_pred(), i);
        strict.all_records().lemma_filter_contains_rev(strict.gate_pred(), rec);
        assert(strict.gate_pred()(rec) == strict.gates_admit(rec));
        assert(lax.gate_pred()(rec) == lax.gates_admit(rec));
        let j = choose|j: int|
            0 <= j < lax.all_records().len() && lax.all_records()[j] == rec;
        lax.all_records().lemma_filter_contains(lax.gate_pred(), j);
    }
}

/// The retention bound holds after every ingestion: each queue keeps at
/// most the configured number of records, whatever was ingested before.
pub proof fn lemma_retention_bound(pre: EguiLogger, rec: LogRecord, l: LogLevel)
    ensures
        pre.level_after_ingest(rec, l).len() <= pre.max_records_per_level,
{
}

impl Default for EguiLogger {
    /// The same fresh store that `new` builds.
    fn default() -> (r: Self)
        ensures
            r.wf(),
            r.spec_total() == 0,
            r.categories_seen() =~= Set::<Seq<char>>::empty(),
    {
        EguiLogger::new()
    }
}

} // verus!
