//! Splitting text into the words that are counted.
//!
//! A word is a run of ASCII letters, as long as it goes on; it is counted in lower
//! case. Runs of more than [`MAX_WORD_LEN`] letters are passed over.
use crate::bytes::{bytes_compare, bytes_equal, bytes_ordering, feed_slice, feeds};
use crate::sip::{bytes_stream, SipHash};
use crate::traits::Lookup;
use std::cmp::Ordering;
use std::hash::{Hash, Hasher};
use vstd::prelude::*;

verus! {

/// Largest number of letters of a word.
pub const MAX_WORD_LEN: usize = 64;

/// A word of at most [`MAX_WORD_LEN`] bytes. The view is its bytes.
#[derive(Debug)]
pub struct Word {
    bytes: [u8; MAX_WORD_LEN],
    len: u8,
}

impl View for Word {
    type V = Seq<u8>;

    closed spec fn view(&self) -> Seq<u8> {
        self.bytes@.subrange(0, self.len as int)
    }
}

impl Word {
    #[verifier::type_invariant]
    spec fn wf(self) -> bool {
        self.len <= MAX_WORD_LEN
    }

    /// The empty word.
    pub fn new() -> (word: Self)
        ensures
            word@ == Seq::<u8>::empty(),
    {
        let word = Word { bytes: [0; MAX_WORD_LEN], len: 0 };
        assert(word@ =~= Seq::<u8>::empty());
        word
    }

    /// Makes the word empty again.
    pub fn clear(&mut self)
        ensures
            final(self)@ == Seq::<u8>::empty(),
    {
        self.len = 0;
        assert(self@ =~= Seq::<u8>::empty());
    }

    /// Appends a byte; a word that is full stays as it is.
    pub fn push(&mut self, byte: u8)
        ensures
            final(self)@ == (if old(self)@.len() < MAX_WORD_LEN {
                old(self)@.push(byte)
            } else {
                old(self)@
            }),
    {
        proof {
            use_type_invariant(&*self);
        }
        if (self.len as usize) < MAX_WORD_LEN {
            let at: usize = self.len as usize;
            self.bytes[at] = byte;
            self.len = self.len + 1;
            assert(self@ =~= old(self)@.push(byte));
        }
    }

    /// The bytes of the word.
    pub fn as_slice(&self) -> (bytes: &[u8])
        ensures
            bytes@ == self@,
            bytes@.len() <= MAX_WORD_LEN,
    {
        proof {
            use_type_invariant(self);
        }
        let all: &[u8] = &self.bytes;
        &all[0..self.len as usize]
    }

    /// How the word stands to another: the order of their bytes.
    pub fn cmp(&self, other: &Self) -> (order: Ordering)
        ensures
            order == bytes_ordering(self@, other@),
    {
        bytes_compare(self.as_slice(), other.as_slice())
    }
}

impl Clone for Word {
    fn clone(&self) -> (word: Self)
        ensures
            word@ == self@,
    {
        proof {
            use_type_invariant(self);
        }
        Word { bytes: self.bytes, len: self.len }
    }
}

impl PartialEq for Word {
    fn eq(&self, other: &Self) -> (same: bool) {
        bytes_equal(self.as_slice(), other.as_slice())
    }
}

impl vstd::std_specs::cmp::PartialEqSpecImpl for Word {
    open spec fn obeys_eq_spec() -> bool {
        true
    }

    open spec fn eq_spec(&self, other: &Self) -> bool {
        self@ == other@
    }
}

impl Eq for Word {

}

impl PartialOrd for Word {
    fn partial_cmp(&self, other: &Self) -> (order: Option<Ordering>) {
        Some(self.cmp(other))
    }
}

impl vstd::std_specs::cmp::PartialOrdSpecImpl for Word {
    open spec fn obeys_partial_cmp_spec() -> bool {
        true
    }

    open spec fn partial_cmp_spec(&self, other: &Self) -> Option<Ordering> {
        Some(bytes_ordering(self@, other@))
    }
}

/// Only the content is hashed.
impl Hash for Word {
    fn hash<H: Hasher>(&self, state: &mut H)
        ensures
            exists|slice: &[u8], fed: &mut H| #[trigger]
                feeds(slice, fed) && slice@ == self@ && *fed == *old(state) && *final(fed)
                    == *final(state),
    {
        feed_slice(self.as_slice(), state)
    }
}

impl SipHash for Word {
    open spec fn stream(&self) -> Seq<u8> {
        bytes_stream(self@)
    }

    fn feed(&self, out: &mut Vec<u8>) {
        self.as_slice().feed(out);
    }

    fn sip_hash(&self, k0: u64, k1: u64) -> (hash: u64) {
        self.as_slice().sip_hash(k0, k1)
    }
}

impl Lookup<Word> for Word {
    fn same_key(&self, probe: &Word) -> (same: bool) {
        bytes_equal(self.as_slice(), probe.as_slice())
    }

    proof fn same_key_same_stream(&self, probe: &Word) {
    }
}

impl Lookup<[u8]> for Word {
    fn same_key(&self, probe: &[u8]) -> (same: bool) {
        bytes_equal(self.as_slice(), probe)
    }

    proof fn same_key_same_stream(&self, probe: &[u8]) {
    }
}

/// Whether a byte is one of `A` to `Z`.
pub open spec fn is_upper(byte: u8) -> bool {
    0x41 <= byte <= 0x5a
}

/// Whether a byte is one of `a` to `z`.
pub open spec fn is_lower(byte: u8) -> bool {
    0x61 <= byte <= 0x7a
}

/// Whether a byte is an ASCII letter.
pub open spec fn is_letter(byte: u8) -> bool {
    is_upper(byte) || is_lower(byte)
}

/// A letter in lower case.
pub open spec fn lower(byte: u8) -> u8 {
    if is_upper(byte) {
        (byte + 32) as u8
    } else {
        byte
    }
}

/// Where the bytes from `pos` on stop being letters, or stop not being letters.
pub open spec fn run_end(text: Seq<u8>, pos: int, letters: bool) -> int
    decreases text.len() - pos,
{
    if 0 <= pos < text.len() && is_letter(text[pos]) == letters {
        run_end(text, pos + 1, letters)
    } else {
        pos
    }
}

/// The letters from `s` to `e` are a run, as seen from `pos` on: it cannot be made
/// longer.
pub open spec fn is_run(text: Seq<u8>, pos: int, s: int, e: int) -> bool {
    &&& pos <= s < e <= text.len()
    &&& forall|j: int| s <= j < e ==> is_letter(#[trigger] text[j])
    &&& s == pos || !is_letter(text[s - 1])
    &&& e == text.len() || !is_letter(text[e])
}

/// The words from `pos` on.
pub open spec fn words_from(text: Seq<u8>, pos: int) -> Seq<Seq<u8>>
    decreases text.len() - pos,
{
    let start = run_end(text, pos, false);
    let end = run_end(text, start, true);
    if 0 <= pos <= start < end <= text.len() {
        if end - start <= MAX_WORD_LEN {
            seq![text.subrange(start, end).map_values(|b: u8| lower(b))] + words_from(text, end)
        } else {
            words_from(text, end)
        }
    } else {
        Seq::empty()
    }
}

proof fn lemma_run(text: Seq<u8>, pos: int, letters: bool)
    requires
        0 <= pos <= text.len(),
    ensures
        pos <= run_end(text, pos, letters) <= text.len(),
        forall|i: int|
            pos <= i < run_end(text, pos, letters) ==> is_letter(#[trigger] text[i]) == letters,
        run_end(text, pos, letters) < text.len() ==> is_letter(
            text[run_end(text, pos, letters)],
        ) != letters,
    decreases text.len() - pos,
{
    if pos < text.len() && is_letter(text[pos]) == letters {
        lemma_run(text, pos + 1, letters);
    }
}

fn letter(byte: u8) -> (b: bool)
    ensures
        b == is_letter(byte),
{
    (0x41 <= byte && byte <= 0x5a) || (0x61 <= byte && byte <= 0x7a)
}

fn to_lower(byte: u8) -> (b: u8)
    ensures
        b == lower(byte),
{
    if 0x41 <= byte && byte <= 0x5a {
        byte + 32
    } else {
        byte
    }
}

/// Finds where a run ends.
fn find_run_end(text: &[u8], pos: usize, letters: bool) -> (end: usize)
    requires
        pos <= text@.len(),
    ensures
        end == run_end(text@, pos as int, letters),
        pos <= end <= text@.len(),
{
    let mut at: usize = pos;
    while at < text.len() && letter(text[at]) == letters
        invariant
            pos <= at <= text@.len(),
            run_end(text@, pos as int, letters) == run_end(text@, at as int, letters),
        decreases text@.len() - at,
    {
        at = at + 1;
    }
    at
}

/// The next word at or after `pos`, and where the text goes on after it; `None`
/// where no word is left.
pub fn next_word(text: &[u8], pos: usize) -> (next: Option<(Word, usize)>)
    requires
        pos <= text@.len(),
    ensures
        match next {
            Some((word, after)) => {
                &&& pos < after <= text@.len()
                &&& words_from(text@, pos as int) == seq![word@] + words_from(text@, after as int)
                &&& exists|start: int|
                    {
                        &&& #[trigger] is_run(text@, pos as int, start, after as int)
                        &&& after - start <= MAX_WORD_LEN
                        &&& word@ == text@.subrange(start, after as int).map_values(
                            |b: u8| lower(b),
                        )
                        &&& forall|s: int, e: int| #[trigger]
                            is_run(text@, pos as int, s, e) && e - s <= MAX_WORD_LEN ==> s >= start
                    }
            },
            None => {
                &&& words_from(text@, pos as int) == Seq::<Seq<u8>>::empty()
                &&& forall|s: int, e: int| #[trigger]
                    is_run(text@, pos as int, s, e) ==> e - s > MAX_WORD_LEN
            },
        },
{
    let mut at: usize = pos;
    loop
        invariant
            pos <= at <= text@.len(),
            words_from(text@, pos as int) == words_from(text@, at as int),
            at == pos || at == text@.len() || !is_letter(text@[at as int]),
            forall|s: int, e: int| #[trigger]
                is_run(text@, pos as int, s, e) && e - s <= MAX_WORD_LEN ==> s >= at,
        decreases text@.len() - at,
    {
        // Skip non-alphabetic characters
        let start: usize = find_run_end(text, at, false);
        proof {
            lemma_run(text@, at as int, false);
            lemma_run(text@, start as int, true);
        }
        if start >= text.len() {
            assert forall|s: int, e: int| #[trigger]
                is_run(text@, pos as int, s, e) implies e - s > MAX_WORD_LEN by {
                if e - s <= MAX_WORD_LEN {
                    assert(is_letter(text@[s]));
                }
            }
            return None;
        }

        // Find end of word
        let end: usize = find_run_end(text, start, true);
        proof {
            if start > at {
                assert(!is_letter(text@[start - 1]));
            }
            assert(is_run(text@, pos as int, start as int, end as int));
            assert forall|s: int, e: int| #[trigger]
                is_run(text@, pos as int, s, e) && e - s <= MAX_WORD_LEN implies s >= start && (s
                == start ==> e == end) && (s > start ==> s >= end) by {
                assert(is_letter(text@[s]));
                assert(is_run(text@, at as int, s, e)) by {
                    if s == pos {
                        assert(at == pos);
                    }
                }
                lemma_run_is_whole(text@, at as int, s, e);
            }
        }
        if end - start <= MAX_WORD_LEN {
            let word = lower_word(text, start, end);
            return Some((word, end));
        }
        at = end;
    }
}

/// Converts to lowercase while copying.
fn lower_word(text: &[u8], start: usize, end: usize) -> (word: Word)
    requires
        start <= end <= text@.len(),
        end - start <= MAX_WORD_LEN,
    ensures
        word@ == text@.subrange(start as int, end as int).map_values(|b: u8| lower(b)),
{
    let mut word = Word::new();
    let ghost whole = text@.subrange(start as int, end as int).map_values(|b: u8| lower(b));
    let mut i: usize = start;
    while i < end
        invariant
            start <= i <= end <= text@.len(),
            end - start <= MAX_WORD_LEN,
            whole == text@.subrange(start as int, end as int).map_values(|b: u8| lower(b)),
            word@ == whole.take(i - start),
        decreases end - i,
    {
        word.push(to_lower(text[i]));
        assert(whole.take(i - start).push(lower(text@[i as int])) =~= whole.take(i + 1 - start));
        i = i + 1;
    }
    assert(whole.take(end - start) =~= whole);
    word
}

/// The words of a text are short, not empty, and of lower-case letters.
pub proof fn law_words_are_lower_case(text: Seq<u8>, pos: int)
    requires
        0 <= pos <= text.len(),
    ensures
        forall|i: int|
            0 <= i < words_from(text, pos).len() ==> {
                &&& 1 <= (#[trigger] words_from(text, pos)[i]).len() <= MAX_WORD_LEN
                &&& forall|j: int|
                    0 <= j < words_from(text, pos)[i].len() ==> is_lower(
                        #[trigger] words_from(text, pos)[i][j],
                    )
            },
    decreases text.len() - pos,
{
    lemma_run(text, pos, false);
    let start = run_end(text, pos, false);
    lemma_run(text, start, true);
    let end = run_end(text, start, true);
    if start < end {
        law_words_are_lower_case(text, end);
        let rest = words_from(text, end);
        let all = words_from(text, pos);
        assert forall|i: int| 0 <= i < all.len() implies {
            &&& 1 <= (#[trigger] all[i]).len() <= MAX_WORD_LEN
            &&& forall|j: int| 0 <= j < all[i].len() ==> is_lower(#[trigger] all[i][j])
        } by {
            if end - start <= MAX_WORD_LEN {
                if i == 0 {
                    assert forall|j: int| 0 <= j < all[0].len() implies is_lower(
                        #[trigger] all[0][j],
                    ) by {
                        assert(is_letter(text[start + j]));
                    }
                } else {
                    assert(all[i] == rest[i - 1]);
                }
            } else {
                assert(all[i] == rest[i]);
            }
        }
    }
}

/// A word holds up to 64 bytes: what is pushed comes last, and a full word takes no more.
pub proof fn law_words_hold_up_to_sixty_four_bytes(
    empty: Word,
    word: &mut Word,
    after: Word,
    byte: u8,
    cleared: &mut Word,
    nothing: &[u8],
    slice: &[u8],
    longer: &[u8],
    copy: Word,
    copy_slice: &[u8],
)
    requires
        call_ensures(Word::new, (), empty),
        call_ensures(Word::as_slice, (&empty,), nothing),
        call_ensures(Word::as_slice, (&*word,), slice),
        call_ensures(Word::clone, (&*word,), copy),
        call_ensures(Word::as_slice, (&copy,), copy_slice),
        call_ensures(Word::push, (word, byte), ()),
        after == *final(word),
        call_ensures(Word::as_slice, (&after,), longer),
        call_ensures(Word::clear, (cleared,), ()),
    ensures
        nothing@.len() == 0,
        final(cleared)@.len() == 0,
        copy_slice@ == slice@,
        slice@.len() <= 64,
        slice@.len() < 64 ==> longer@ == slice@.push(byte),
        slice@.len() == 64 ==> longer@ == slice@,
        MAX_WORD_LEN == 64,
{
}

/// Words are equal if their bytes are, ordered as these are, and feed what a slice of
/// their bytes feeds.
pub proof fn law_words_are_told_by_their_bytes(
    word: Word,
    other: Word,
    slice: &[u8],
    other_slice: &[u8],
    same: bool,
    order: Ordering,
    partial: Option<Ordering>,
)
    requires
        call_ensures(Word::as_slice, (&word,), slice),
        call_ensures(Word::as_slice, (&other,), other_slice),
        call_ensures(Word::eq, (&word, &other), same),
        call_ensures(Word::cmp, (&word, &other), order),
        call_ensures(Word::partial_cmp, (&word, &other), partial),
    ensures
        same <==> slice@ == other_slice@,
        order == bytes_ordering(slice@, other_slice@),
        partial == Some(order),
        word.stream() == slice.stream(),
{
}

/// A run is the first from `pos` on or stands behind it.
proof fn lemma_run_is_whole(text: Seq<u8>, pos: int, s: int, e: int)
    requires
        0 <= pos,
        is_run(text, pos, s, e),
    ensures
        ({
            let start = run_end(text, pos, false);
            let end = run_end(text, start, true);
            &&& pos <= start < end <= text.len()
            &&& (start == s && end == e) || end <= s
        }),
{
    lemma_run(text, pos, false);
    let start = run_end(text, pos, false);
    lemma_run(text, start, true);
    let end = run_end(text, start, true);
    assert(is_letter(text[s]));
    if start > s {
        assert(is_letter(text[s]) == false);
    }
    assert(start <= s);
    if start == s {
        if end < e {
            assert(is_letter(text[end]));
        } else if e < end {
            assert(is_letter(text[e]));
        }
    } else if end > s {
        assert(is_letter(text[s - 1]));
    }
}

/// The words of a text from `pos` on: one for each run of 1 to 64 ASCII letters that
/// cannot be made longer, in the order of the runs, the letters in lower case. `runs`
/// gives where each begins and ends.
pub proof fn law_words_are_the_runs_of_letters(text: Seq<u8>, pos: int) -> (runs: Seq<(int, int)>)
    requires
        0 <= pos <= text.len(),
    ensures
        runs.len() == words_from(text, pos).len(),
        forall|i: int|
            0 <= i < runs.len() ==> {
                let (s, e) = #[trigger] runs[i];
                &&& pos <= s < e <= text.len()
                &&& e - s <= 64
                &&& forall|j: int|
                    s <= j < e ==> 0x41 <= #[trigger] text[j] <= 0x5a || 0x61 <= text[j] <= 0x7a
                &&& s == pos || !(0x41 <= text[s - 1] <= 0x5a || 0x61 <= text[s - 1] <= 0x7a)
                &&& e == text.len() || !(0x41 <= text[e] <= 0x5a || 0x61 <= text[e] <= 0x7a)
                &&& words_from(text, pos)[i].len() == e - s
                &&& forall|j: int|
                    0 <= j < e - s ==> #[trigger] words_from(text, pos)[i][j] == (if 0x41 <= text[s
                        + j] <= 0x5a {
                        text[s + j] + 32
                    } else {
                        text[s + j] as int
                    })
            },
        forall|i: int, j: int|
            0 <= i < j < runs.len() ==> (#[trigger] runs[i]).1 < (#[trigger] runs[j]).0,
        forall|s: int, e: int|
            {
                &&& pos <= s < e <= text.len()
                &&& e - s <= 64
                &&& forall|j: int|
                    s <= j < e ==> 0x41 <= #[trigger] text[j] <= 0x5a || 0x61 <= text[j] <= 0x7a
                &&& s == pos || !(0x41 <= text[s - 1] <= 0x5a || 0x61 <= text[s - 1] <= 0x7a)
                &&& e == text.len() || !(0x41 <= text[e] <= 0x5a || 0x61 <= text[e] <= 0x7a)
            } ==> #[trigger] runs.contains((s, e)),
    decreases text.len() - pos,
{
    lemma_run(text, pos, false);
    let start = run_end(text, pos, false);
    lemma_run(text, start, true);
    let end = run_end(text, start, true);
    let words = words_from(text, pos);
    assert forall|s: int, e: int| #[trigger] is_run(text, pos, s, e) implies start < end && ((s
        == start && e == end) || end <= s) by {
        lemma_run_is_whole(text, pos, s, e);
    }
    if start < end {
        let rest = law_words_are_the_runs_of_letters(text, end);
        let others = words_from(text, end);
        assert forall|i: int| 0 <= i < rest.len() implies end < (#[trigger] rest[i]).0 by {
            let (s, e) = rest[i];
            if s == end {
                assert(is_letter(text[s]));
            }
        }
        let runs = if end - start <= 64 {
            seq![(start, end)] + rest
        } else {
            rest
        };
        let first = text.subrange(start, end).map_values(|b: u8| lower(b));
        assert(words =~= if end - start <= 64 {
            seq![first] + others
        } else {
            others
        });
        assert forall|i: int| 0 <= i < runs.len() implies {
            let (s, e) = #[trigger] runs[i];
            &&& pos <= s < e <= text.len()
            &&& e - s <= 64
            &&& forall|j: int|
                s <= j < e ==> 0x41 <= #[trigger] text[j] <= 0x5a || 0x61 <= text[j] <= 0x7a
            &&& s == pos || !(0x41 <= text[s - 1] <= 0x5a || 0x61 <= text[s - 1] <= 0x7a)
            &&& e == text.len() || !(0x41 <= text[e] <= 0x5a || 0x61 <= text[e] <= 0x7a)
            &&& words[i].len() == e - s
            &&& forall|j: int|
                0 <= j < e - s ==> #[trigger] words[i][j] == (if 0x41 <= text[s + j] <= 0x5a {
                    text[s + j] + 32
                } else {
                    text[s + j] as int
                })
        } by {
            if end - start <= 64 && i == 0 {
                assert(words[0] == first);
                assert forall|j: int| start <= j < end implies 0x41 <= #[trigger] text[j] <= 0x5a
                    || 0x61 <= text[j] <= 0x7a by {
                    assert(is_letter(text[j]));
                }
                if start > pos {
                    assert(!is_letter(text[start - 1]));
                }
            } else {
                let k = if end - start <= 64 {
                    i - 1
                } else {
                    i
                };
                assert(runs[i] == rest[k] && words[i] == others[k]);
                assert(end < rest[k].0);
            }
        }
        assert forall|i: int, j: int| 0 <= i < j < runs.len() implies (#[trigger] runs[i]).1 < (
        #[trigger] runs[j]).0 by {
            if end - start <= 64 {
                if i == 0 {
                    assert(runs[j] == rest[j - 1]);
                } else {
                    assert(runs[i] == rest[i - 1] && runs[j] == rest[j - 1]);
                }
            }
        }
        assert forall|s: int, e: int|
            {
                &&& pos <= s < e <= text.len()
                &&& e - s <= 64
                &&& forall|j: int|
                    s <= j < e ==> 0x41 <= #[trigger] text[j] <= 0x5a || 0x61 <= text[j] <= 0x7a
                &&& s == pos || !(0x41 <= text[s - 1] <= 0x5a || 0x61 <= text[s - 1] <= 0x7a)
                &&& e == text.len() || !(0x41 <= text[e] <= 0x5a || 0x61 <= text[e] <= 0x7a)
            } implies #[trigger] runs.contains((s, e)) by {
            assert(is_run(text, pos, s, e));
            if end <= s {
                assert(rest.contains((s, e)));
                let k = choose|k: int| 0 <= k < rest.len() && rest[k] == (s, e);
                if end - start <= 64 {
                    assert(runs[k + 1] == (s, e));
                } else {
                    assert(runs[k] == (s, e));
                }
            } else {
                assert(runs[0] == (s, e));
            }
        }
        runs
    } else {
        assert(words =~= Seq::empty());
        let runs = Seq::<(int, int)>::empty();
        assert forall|s: int, e: int|
            {
                &&& pos <= s < e <= text.len()
                &&& e - s <= 64
                &&& forall|j: int|
                    s <= j < e ==> 0x41 <= #[trigger] text[j] <= 0x5a || 0x61 <= text[j] <= 0x7a
                &&& s == pos || !(0x41 <= text[s - 1] <= 0x5a || 0x61 <= text[s - 1] <= 0x7a)
                &&& e == text.len() || !(0x41 <= text[e] <= 0x5a || 0x61 <= text[e] <= 0x7a)
            } implies #[trigger] runs.contains((s, e)) by {
            assert(is_run(text, pos, s, e));
        }
        runs
    }
}

/// The next word is the first run of 1 to 64 ASCII letters from `pos` on that cannot be
/// made longer, in lower case, and the text goes on where the run ends; there is none
/// where there is no such run.
pub proof fn law_next_word_is_the_next_run(text: &[u8], pos: usize, next: Option<(Word, usize)>)
    requires
        pos <= text@.len(),
        call_ensures(next_word, (text, pos), next),
    ensures
        call_requires(next_word, (text, pos)),
        match next {
            Some((word, after)) => exists|start: int|
                {
                    &&& pos <= start < after <= text@.len()
                    &&& #[trigger] text@.subrange(start, after as int).len() <= 64
                    &&& forall|j: int|
                        start <= j < after ==> 0x41 <= #[trigger] text@[j] <= 0x5a || 0x61
                            <= text@[j] <= 0x7a
                    &&& start == pos || !(0x41 <= text@[start - 1] <= 0x5a || 0x61 <= text@[start
                        - 1] <= 0x7a)
                    &&& after == text@.len() || !(0x41 <= text@[after as int] <= 0x5a || 0x61
                        <= text@[after as int] <= 0x7a)
                    &&& word@.len() == after - start
                    &&& forall|j: int|
                        0 <= j < after - start ==> #[trigger] word@[j] == (if 0x41 <= text@[start
                            + j] <= 0x5a {
                            text@[start + j] + 32
                        } else {
                            text@[start + j] as int
                        })
                    &&& forall|s: int, e: int|
                        {
                            &&& pos <= s < e <= text@.len()
                            &&& #[trigger] text@.subrange(s, e).len() <= 64
                            &&& forall|j: int|
                                s <= j < e ==> 0x41 <= #[trigger] text@[j] <= 0x5a || 0x61
                                    <= text@[j] <= 0x7a
                            &&& s == pos || !(0x41 <= text@[s - 1] <= 0x5a || 0x61 <= text@[s - 1]
                                <= 0x7a)
                            &&& e == text@.len() || !(0x41 <= text@[e] <= 0x5a || 0x61 <= text@[e]
                                <= 0x7a)
                        } ==> s >= start
                },
            None => forall|s: int, e: int|
                !{
                    &&& pos <= s < e <= text@.len()
                    &&& #[trigger] text@.subrange(s, e).len() <= 64
                    &&& forall|j: int|
                        s <= j < e ==> 0x41 <= #[trigger] text@[j] <= 0x5a || 0x61 <= text@[j]
                            <= 0x7a
                    &&& s == pos || !(0x41 <= text@[s - 1] <= 0x5a || 0x61 <= text@[s - 1] <= 0x7a)
                    &&& e == text@.len() || !(0x41 <= text@[e] <= 0x5a || 0x61 <= text@[e] <= 0x7a)
                },
        },
{
    match next {
        Some((word, after)) => {
            let start = choose|start: int|
                {
                    &&& #[trigger] is_run(text@, pos as int, start, after as int)
                    &&& after - start <= MAX_WORD_LEN
                    &&& word@ == text@.subrange(start, after as int).map_values(|b: u8| lower(b))
                    &&& forall|s: int, e: int| #[trigger]
                        is_run(text@, pos as int, s, e) && e - s <= MAX_WORD_LEN ==> s >= start
                };
            assert(text@.subrange(start, after as int).len() <= 64);
            assert forall|j: int| start <= j < after implies 0x41 <= #[trigger] text@[j] <= 0x5a
                || 0x61 <= text@[j] <= 0x7a by {
                assert(is_letter(text@[j]));
            }
            assert forall|s: int, e: int|
                {
                    &&& pos <= s < e <= text@.len()
                    &&& #[trigger] text@.subrange(s, e).len() <= 64
                    &&& forall|j: int|
                        s <= j < e ==> 0x41 <= #[trigger] text@[j] <= 0x5a || 0x61 <= text@[j]
                            <= 0x7a
                    &&& s == pos || !(0x41 <= text@[s - 1] <= 0x5a || 0x61 <= text@[s - 1] <= 0x7a)
                    &&& e == text@.len() || !(0x41 <= text@[e] <= 0x5a || 0x61 <= text@[e] <= 0x7a)
                } implies s >= start by {
                assert(is_run(text@, pos as int, s, e));
            }
        },
        None => {
            assert forall|s: int, e: int|
                {
                    &&& pos <= s < e <= text@.len()
                    &&& #[trigger] text@.subrange(s, e).len() <= 64
                    &&& forall|j: int|
                        s <= j < e ==> 0x41 <= #[trigger] text@[j] <= 0x5a || 0x61 <= text@[j]
                            <= 0x7a
                    &&& s == pos || !(0x41 <= text@[s - 1] <= 0x5a || 0x61 <= text@[s - 1] <= 0x7a)
                    &&& e == text@.len() || !(0x41 <= text@[e] <= 0x5a || 0x61 <= text@[e] <= 0x7a)
                } implies false by {
                assert(is_run(text@, pos as int, s, e));
            }
        },
    }
}

} // verus!
