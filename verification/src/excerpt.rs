//! A log that keeps its beginning and its end within a number of bytes.

use vstd::prelude::*;

verus! {

/// How many bytes [`marker_bytes`] has.
pub const MARKER_LEN: usize = 16;

/// The line that stands in for the lines that an over-long log dropped.
pub open spec fn marker() -> Seq<u8> {
    seq![
        91u8, 108u8, 111u8, 103u8, 32u8, 116u8, 114u8, 117u8, 110u8, 99u8, 97u8, 116u8, 101u8,
        100u8, 93u8, 10u8,
    ]
}

/// Returns `[log truncated]` and a line end.
fn marker_bytes() -> (result: Vec<u8>)
    ensures
        result@ == marker(),
{
    let result = vec![
        91u8, 108u8, 111u8, 103u8, 32u8, 116u8, 114u8, 117u8, 110u8, 99u8, 97u8, 116u8, 101u8,
        100u8, 93u8, 10u8,
    ];
    assert(result@ =~= marker());
    result
}

/// The bytes that an over-long log keeps of its beginning.
pub open spec fn head_limit(limit: nat) -> nat {
    if limit <= MARKER_LEN {
        0
    } else {
        ((limit - MARKER_LEN + 1) / 2) as nat
    }
}

/// The bytes that an over-long log keeps of its end.
pub open spec fn tail_limit(limit: nat) -> nat {
    if limit <= MARKER_LEN {
        limit
    } else {
        (limit - MARKER_LEN - head_limit(limit)) as nat
    }
}

/// The largest number up to `bound` that is zero or a line end of `text`.
pub open spec fn aligned(text: Seq<u8>, bound: nat) -> nat
    decreases bound,
{
    if bound == 0 {
        0
    } else if bound <= text.len() && text[bound - 1] == 10u8 {
        bound
    } else {
        aligned(text, (bound - 1) as nat)
    }
}

/// The first line end behind position `from`, or `None`.
pub open spec fn line_end(text: Seq<u8>, from: nat) -> Option<nat>
    decreases text.len() - from,
{
    if from >= text.len() {
        None
    } else if text[from as int] == 10u8 {
        Some(from + 1)
    } else {
        line_end(text, from + 1)
    }
}

/// A byte inside an encoded character.
pub open spec fn is_continuation(byte: u8) -> bool {
    128 <= byte < 192
}

/// The first position from `from` on where a character starts, or the end.
pub open spec fn character_start(text: Seq<u8>, from: nat) -> nat
    decreases text.len() - from,
{
    if from < text.len() && is_continuation(text[from as int]) {
        character_start(text, from + 1)
    } else {
        from
    }
}

/// Where a tail is cut that is `excess` bytes too long: at the first line end behind that, or,
/// where the only such line end is the last one, at the first character.
pub open spec fn cut(text: Seq<u8>, excess: nat) -> nat {
    match line_end(text, excess) {
        Some(end) => if end < text.len() {
            end
        } else {
            character_start(text, excess)
        },
        None => character_start(text, excess),
    }
}

/// The end of a text within a number of bytes.
pub open spec fn trimmed(text: Seq<u8>, limit: nat) -> Seq<u8> {
    if text.len() <= limit {
        text
    } else {
        text.skip(cut(text, (text.len() - limit) as nat) as int)
    }
}

/// What a bounded log holds.
#[verifier::ext_equal]
pub struct LogModel {
    /// The most bytes it may hold.
    pub limit: nat,
    /// The beginning: the whole log while nothing was dropped.
    pub head: Seq<u8>,
    /// The end, once something was dropped.
    pub tail: Seq<u8>,
    /// Whether something was dropped.
    pub truncated: bool,
}

impl LogModel {
    /// An empty log.
    pub open spec fn new(limit: nat) -> LogModel {
        LogModel { limit, head: Seq::empty(), tail: Seq::empty(), truncated: false }
    }

    /// The log stays within its limits.
    pub open spec fn bounded(self) -> bool {
        if self.truncated {
            self.head.len() <= head_limit(self.limit) && self.tail.len() <= tail_limit(self.limit)
        } else {
            self.head.len() <= self.limit && self.tail.len() == 0
        }
    }

    /// The log with one more line. A log that fits is kept whole; one that does not keeps whole
    /// lines of its beginning and of its end.
    pub open spec fn pushed(self, line: Seq<u8>) -> LogModel {
        let all = self.head + line;
        if self.truncated {
            LogModel { tail: trimmed(self.tail + line, tail_limit(self.limit)), ..self }
        } else if all.len() <= self.limit {
            LogModel { head: all, ..self }
        } else {
            let at = aligned(all, head_limit(self.limit)) as int;
            LogModel {
                head: all.take(at),
                tail: trimmed(all.skip(at), tail_limit(self.limit)),
                truncated: true,
                ..self
            }
        }
    }

    /// The beginning and the end, with a marker between them where lines were dropped and the
    /// marker fits.
    pub open spec fn text(self) -> Seq<u8> {
        if self.truncated && self.head.len() + MARKER_LEN + self.tail.len() <= self.limit {
            self.head + marker() + self.tail
        } else {
            self.head + self.tail
        }
    }
}

/// A cut is neither before the excess nor behind the end.
pub proof fn lemma_cut(text: Seq<u8>, excess: nat)
    requires
        excess <= text.len(),
    ensures
        excess <= cut(text, excess) <= text.len(),
{
    lemma_line_end(text, excess);
    lemma_character_start(text, excess);
}

proof fn lemma_line_end(text: Seq<u8>, from: nat)
    requires
        from <= text.len(),
    ensures
        line_end(text, from) matches Some(end) ==> from < end <= text.len(),
    decreases text.len() - from,
{
    if from < text.len() && text[from as int] != 10u8 {
        lemma_line_end(text, from + 1);
    }
}

proof fn lemma_character_start(text: Seq<u8>, from: nat)
    requires
        from <= text.len(),
    ensures
        from <= character_start(text, from) <= text.len(),
    decreases text.len() - from,
{
    if from < text.len() && is_continuation(text[from as int]) {
        lemma_character_start(text, from + 1);
    }
}

proof fn lemma_aligned(text: Seq<u8>, bound: nat)
    ensures
        aligned(text, bound) <= bound,
        aligned(text, bound) <= text.len(),
    decreases bound,
{
    if bound > 0 {
        lemma_aligned(text, (bound - 1) as nat);
    }
}

proof fn lemma_trimmed(text: Seq<u8>, limit: nat)
    ensures
        trimmed(text, limit).len() <= limit,
{
    if text.len() > limit {
        lemma_cut(text, (text.len() - limit) as nat);
    }
}

/// Adding a line keeps a log within its limits.
pub proof fn law_logs_stay_bounded(log: LogModel, line: Seq<u8>)
    requires
        log.bounded(),
    ensures
        log.pushed(line).bounded(),
        log.text().len() <= log.limit,
        log.pushed(line).text().len() <= log.limit,
{
    let limit = tail_limit(log.limit);
    lemma_trimmed(log.tail + line, limit);
    let all = log.head + line;
    lemma_aligned(all, head_limit(log.limit));
    lemma_trimmed(all.skip(aligned(all, head_limit(log.limit)) as int), limit);
}

/// A log that fits its limit is kept whole, and nothing counts as dropped.
pub proof fn law_short_logs_are_kept_whole(log: LogModel, line: Seq<u8>)
    requires
        log.bounded(),
        !log.truncated,
        log.text().len() + line.len() <= log.limit,
    ensures
        log.pushed(line).text() == log.text() + line,
        !log.pushed(line).truncated,
{
    assert(log.head + log.tail =~= log.head);
    assert(log.pushed(line).head + log.pushed(line).tail =~= log.head + line);
}

/// A line: its only line end is its last byte, and it starts with a character.
pub open spec fn is_line(line: Seq<u8>) -> bool {
    &&& line.len() > 0
    &&& line.last() == 10u8
    &&& !is_continuation(line[0])
    &&& forall|i: int| 0 <= i < line.len() - 1 ==> #[trigger] line[i] != 10u8
}

/// The last line that was added is the end of the log, unless it is longer than the tail of an
/// over-long log may be.
pub proof fn law_the_last_line_survives(log: LogModel, line: Seq<u8>)
    requires
        log.bounded(),
        is_line(line),
        line.len() <= tail_limit(log.limit),
    ensures
        log.pushed(line).text().len() >= line.len(),
        log.pushed(line).text().skip(log.pushed(line).text().len() - line.len()) == line,
{
    let after = log.pushed(line);
    let limit = tail_limit(log.limit);
    let all = log.head + line;
    if log.truncated {
        lemma_trim_keeps_line(log.tail, line, limit);
        lemma_suffix(after.head + marker(), after.tail, line);
        lemma_suffix(after.head, after.tail, line);
        assert(after.head + marker() + after.tail =~= (after.head + marker()) + after.tail);
    } else if all.len() <= log.limit {
        assert(after.head + after.tail =~= all);
        assert(all.skip(all.len() - line.len()) =~= line);
    } else {
        let at = aligned(all, head_limit(log.limit)) as int;
        lemma_aligned(all, head_limit(log.limit));
        lemma_aligned_is_line_end(all, head_limit(log.limit));
        assert(at <= log.head.len()) by {
            if at > log.head.len() {
                assert(all[at - 1] == line[at - 1 - log.head.len()]);
                assert(at == all.len());
                assert(head_limit(log.limit) <= log.limit);
            }
        }
        assert(all.skip(at) =~= log.head.skip(at) + line);
        lemma_trim_keeps_line(log.head.skip(at), line, limit);
        lemma_suffix(after.head + marker(), after.tail, line);
        lemma_suffix(after.head, after.tail, line);
        assert(after.head + marker() + after.tail =~= (after.head + marker()) + after.tail);
    }
}

proof fn lemma_aligned_is_line_end(text: Seq<u8>, bound: nat)
    ensures
        aligned(text, bound) > 0 ==> text[aligned(text, bound) - 1] == 10u8,
    decreases bound,
{
    if bound > 0 {
        lemma_aligned_is_line_end(text, (bound - 1) as nat);
    }
}

/// Whole lines at the beginning that are within the head's limit are never dropped.
pub proof fn law_the_first_lines_survive(log: LogModel, line: Seq<u8>, size: nat)
    requires
        log.bounded(),
        size <= log.head.len(),
        size <= head_limit(log.limit),
        size == 0 || log.head[size - 1] == 10u8,
    ensures
        log.pushed(line).head.len() >= size,
        log.pushed(line).head.take(size as int) == log.head.take(size as int),
{
    let all = log.head + line;
    lemma_aligned(all, head_limit(log.limit));
    if size > 0 {
        assert(all[size - 1] == 10u8);
        lemma_aligned_covers(all, head_limit(log.limit), size);
    }
    assert(log.pushed(line).head.take(size as int) =~= log.head.take(size as int));
}

proof fn lemma_aligned_covers(text: Seq<u8>, bound: nat, size: nat)
    requires
        0 < size <= bound,
        size <= text.len(),
        text[size - 1] == 10u8,
    ensures
        aligned(text, bound) >= size,
    decreases bound,
{
    if bound > size {
        lemma_aligned_covers(text, (bound - 1) as nat, size);
    }
}

proof fn lemma_suffix(front: Seq<u8>, text: Seq<u8>, line: Seq<u8>)
    requires
        text.len() >= line.len(),
        text.skip(text.len() - line.len()) == line,
    ensures
        (front + text).skip((front + text).len() - line.len()) == line,
{
    assert((front + text).skip((front + text).len() - line.len()) =~= text.skip(
        text.len() - line.len(),
    ));
}

/// Trimming keeps a last line that fits.
proof fn lemma_trim_keeps_line(before: Seq<u8>, line: Seq<u8>, limit: nat)
    requires
        is_line(line),
        line.len() <= limit,
    ensures
        trimmed(before + line, limit).len() >= line.len(),
        trimmed(before + line, limit).skip(trimmed(before + line, limit).len() - line.len())
            == line,
{
    let text = before + line;
    if text.len() > limit {
        let excess = (text.len() - limit) as nat;
        let start = before.len();
        lemma_cut(text, excess);
        assert(text[start as int] == line[0]);
        lemma_character_start_stops(text, excess, start);
        lemma_line_end_before(text, line, before, excess);
        let at = cut(text, excess);
        assert(at <= start);
        assert(text.skip(at as int).skip((text.len() - at) - line.len()) =~= line);
    } else {
        assert(text.skip(text.len() - line.len()) =~= line);
    }
}

proof fn lemma_character_start_stops(text: Seq<u8>, from: nat, stop: nat)
    requires
        from <= stop < text.len(),
        !is_continuation(text[stop as int]),
    ensures
        character_start(text, from) <= stop,
    decreases text.len() - from,
{
    if is_continuation(text[from as int]) {
        lemma_character_start_stops(text, from + 1, stop);
    }
}

proof fn lemma_line_end_before(text: Seq<u8>, line: Seq<u8>, before: Seq<u8>, from: nat)
    requires
        is_line(line),
        text == before + line,
        from <= text.len(),
    ensures
        line_end(text, from) matches Some(end) ==> end <= before.len() || end == text.len(),
    decreases text.len() - from,
{
    if from < text.len() {
        if text[from as int] == 10u8 {
            if from >= before.len() {
                assert(text[from as int] == line[from - before.len()]);
            }
        } else {
            lemma_line_end_before(text, line, before, from + 1);
        }
    }
}

/// Reconstructed log bounded at both ends, because the error that ended a build stands in its last
/// lines.
#[derive(Debug, PartialEq, Eq)]
pub struct BoundedLog {
    limit: usize,
    head: Vec<u8>,
    tail: Vec<u8>,
    truncated: bool,
}

impl BoundedLog {
    /// What the log holds.
    pub closed spec fn model(&self) -> LogModel {
        LogModel {
            limit: self.limit as nat,
            head: self.head@,
            tail: self.tail@,
            truncated: self.truncated,
        }
    }

    /// Creates an empty log of at most `limit` bytes.
    pub fn new(limit: usize) -> (result: Self)
        ensures
            result.model() == LogModel::new(limit as nat),
            result.model().bounded(),
    {
        BoundedLog { limit, head: Vec::new(), tail: Vec::new(), truncated: false }
    }

    /// Appends one complete line.
    pub fn push(&mut self, line: &[u8])
        requires
            old(self).model().bounded(),
        ensures
            final(self).model() == old(self).model().pushed(line@),
            final(self).model().bounded(),
    {
        proof {
            law_logs_stay_bounded(self.model(), line@);
        }
        let keep_head = if self.limit <= MARKER_LEN {
            0
        } else {
            (self.limit - MARKER_LEN) / 2 + (self.limit - MARKER_LEN) % 2
        };
        let keep_tail = if self.limit <= MARKER_LEN {
            self.limit
        } else {
            self.limit - MARKER_LEN - keep_head
        };
        if self.truncated {
            let ghost before = self.tail@;
            self.tail.extend_from_slice(line);
            assert(self.tail@ =~= before + line@);
            trim(&mut self.tail, keep_tail);
            return;
        }
        let ghost before = self.head@;
        if line.len() <= self.limit - self.head.len() {
            self.head.extend_from_slice(line);
            assert(self.head@ =~= before + line@);
            return;
        }
        self.head.extend_from_slice(line);
        let at = align(&self.head, keep_head);
        proof {
            lemma_aligned(self.head@, keep_head as nat);
        }
        let ghost all = self.head@;
        let mut rest = self.head.split_off(at);
        trim(&mut rest, keep_tail);
        self.tail = rest;
        self.truncated = true;
        proof {
            assert(all =~= before + line@);
            assert(self.head@ =~= all.take(at as int));
            assert(all.subrange(at as int, all.len() as int) =~= all.skip(at as int));
        }
    }

    /// Empties the log, and returns its text and whether anything was dropped from it.
    pub fn take(&mut self) -> (result: (Vec<u8>, bool))
        requires
            old(self).model().bounded(),
        ensures
            result.0@ == old(self).model().text(),
            result.1 == old(self).model().truncated,
            final(self).model() == LogModel::new(old(self).model().limit),
            final(self).model().bounded(),
            result.0@.len() <= old(self).model().limit,
    {
        proof {
            law_logs_stay_bounded(self.model(), Seq::empty());
        }
        let truncated = self.truncated;
        let mut bytes: Vec<u8> = Vec::new();
        std::mem::swap(&mut bytes, &mut self.head);
        let mut tail: Vec<u8> = Vec::new();
        std::mem::swap(&mut tail, &mut self.tail);
        if truncated && self.limit >= MARKER_LEN && bytes.len() <= self.limit - MARKER_LEN
            && tail.len() <= self.limit - MARKER_LEN - bytes.len() {
            let mut middle = marker_bytes();
            bytes.append(&mut middle);
        }
        bytes.append(&mut tail);
        self.truncated = false;
        (bytes, truncated)
    }
}

/// Returns the largest number up to `bound` that is zero or a line end of `text`.
fn align(text: &Vec<u8>, bound: usize) -> (result: usize)
    ensures
        result == aligned(text@, bound as nat),
{
    let mut at: usize = bound;
    while at > 0 && !(at <= text.len() && text[at - 1] == 10)
        invariant
            aligned(text@, at as nat) == aligned(text@, bound as nat),
        decreases at,
    {
        at = at - 1;
    }
    at
}

/// Returns where a tail is cut that is `excess` bytes too long.
fn line_cut(text: &Vec<u8>, excess: usize) -> (result: usize)
    requires
        excess <= text@.len(),
    ensures
        result == cut(text@, excess as nat),
{
    let size = text.len();
    let mut at: usize = excess;
    while at < size && text[at] != 10
        invariant
            size == text@.len(),
            excess <= at <= size,
            line_end(text@, at as nat) == line_end(text@, excess as nat),
        decreases size - at,
    {
        at = at + 1;
    }
    if at < size && at + 1 < size {
        return at + 1;
    }
    let mut at: usize = excess;
    while at < size && 128 <= text[at] && text[at] < 192
        invariant
            size == text@.len(),
            excess <= at <= size,
            character_start(text@, at as nat) == character_start(text@, excess as nat),
        decreases size - at,
    {
        at = at + 1;
    }
    at
}

/// Keeps the end of a text within a number of bytes.
fn trim(text: &mut Vec<u8>, limit: usize)
    ensures
        final(text)@ == trimmed(old(text)@, limit as nat),
{
    let size = text.len();
    if size > limit {
        let at = line_cut(text, size - limit);
        proof {
            lemma_cut(text@, (size - limit) as nat);
        }
        let ghost before = text@;
        let rest = text.split_off(at);
        assert(before.subrange(at as int, before.len() as int) =~= before.skip(at as int));
        *text = rest;
    }
}

/// The log after several entries.
pub open spec fn pushed_all(log: LogModel, entries: Seq<Seq<u8>>) -> LogModel
    decreases entries.len(),
{
    if entries.len() == 0 {
        log
    } else {
        pushed_all(log, entries.drop_last()).pushed(entries.last())
    }
}

/// Entries one after the other.
pub open spec fn together(entries: Seq<Seq<u8>>) -> Seq<u8>
    decreases entries.len(),
{
    if entries.len() == 0 {
        Seq::empty()
    } else {
        together(entries.drop_last()) + entries.last()
    }
}

/// The text ends with this.
pub open spec fn ends(text: Seq<u8>, end: Seq<u8>) -> bool {
    text.len() >= end.len() && text.skip(text.len() - end.len()) == end
}

/// The bytes are empty or end with a line.
pub open spec fn whole_lines(bytes: Seq<u8>) -> bool {
    bytes.len() == 0 || bytes.last() == 10u8
}

/// A log of whole lines.
pub open spec fn of_lines(log: LogModel) -> bool {
    &&& log.bounded()
    &&& whole_lines(log.head)
    &&& whole_lines(log.tail)
}

/// The end of a log: all of it, as long as nothing was dropped.
spec fn end_of(log: LogModel) -> Seq<u8> {
    if log.truncated {
        log.tail
    } else {
        log.head
    }
}

/// The latest entries survive together: those that are shorter than what an over-long log keeps of
/// its end all stand at the end of the text, in order, whatever came before them.
pub proof fn law_the_latest_entries_survive(log: LogModel, entries: Seq<Seq<u8>>)
    requires
        of_lines(log),
        forall|i: int| 0 <= i < entries.len() ==> {
            &&& (#[trigger] entries[i]).len() > 0
            &&& entries[i].last() == 10u8
        },
        together(entries).len() < tail_limit(log.limit),
    ensures
        ends(pushed_all(log, entries).text(), together(entries)),
        of_lines(pushed_all(log, entries)),
{
    lemma_latest_entries(log, entries);
    let after = pushed_all(log, entries);
    let end = together(entries);
    lemma_ends_behind(after.head + marker(), after.tail, end);
    lemma_ends_behind(after.head, after.tail, end);
    assert(after.head + marker() + after.tail =~= (after.head + marker()) + after.tail);
    if !after.truncated {
        assert(after.head + after.tail =~= after.head);
    }
}

proof fn lemma_ends_behind(front: Seq<u8>, text: Seq<u8>, end: Seq<u8>)
    ensures
        ends(text, end) ==> ends(front + text, end),
{
    if ends(text, end) {
        lemma_suffix(front, text, end);
    }
}

proof fn lemma_latest_entries(log: LogModel, entries: Seq<Seq<u8>>)
    requires
        of_lines(log),
        forall|i: int| 0 <= i < entries.len() ==> {
            &&& (#[trigger] entries[i]).len() > 0
            &&& entries[i].last() == 10u8
        },
        together(entries).len() < tail_limit(log.limit),
    ensures
        ({
            let after = pushed_all(log, entries);
            let end = together(entries);
            &&& of_lines(after)
            &&& after.limit == log.limit
            &&& ends(end_of(after), end)
            &&& end_of(after).len() == end.len() || end.len() == 0 || end_of(after)[end_of(
                after,
            ).len() - end.len() - 1] == 10u8
        }),
    decreases entries.len(),
{
    if entries.len() == 0 {
        assert(end_of(log).skip(end_of(log).len() as int) =~= Seq::<u8>::empty());
    } else {
        let front = entries.drop_last();
        let entry = entries.last();
        assert(entry == entries[entries.len() - 1]);
        assert forall|i: int| 0 <= i < front.len() implies (#[trigger] front[i]).len() > 0
            && front[i].last() == 10u8 by {
            assert(front[i] == entries[i]);
        }
        lemma_latest_entries(log, front);
        lemma_latest_entry(pushed_all(log, front), together(front), entry);
    }
}

/// The log ends with this, where a line ends in front of it.
spec fn ends_cleanly(log: LogModel, end: Seq<u8>) -> bool {
    &&& ends(end_of(log), end)
    &&& end_of(log).len() == end.len() || end.len() == 0 || end_of(log)[end_of(log).len()
        - end.len() - 1] == 10u8
}

#[verifier::rlimit(50)]
proof fn lemma_latest_entry(before: LogModel, earlier: Seq<u8>, entry: Seq<u8>)
    requires
        of_lines(before),
        ends_cleanly(before, earlier),
        entry.len() > 0,
        entry.last() == 10u8,
        earlier.len() + entry.len() < tail_limit(before.limit),
    ensures
        of_lines(before.pushed(entry)),
        before.pushed(entry).limit == before.limit,
        ends_cleanly(before.pushed(entry), earlier + entry),
{
    let end = earlier + entry;
    let limit = tail_limit(before.limit);
    let all = end_of(before) + entry;
    law_logs_stay_bounded(before, entry);
    assert(ends(all, end)) by {
        let cut = all.len() - end.len();
        assert(all.skip(cut) =~= end_of(before).skip(cut) + entry);
    }
    assert(all.last() == 10u8);
    assert(all.len() == end.len() || all[all.len() - end.len() - 1] == 10u8) by {
        if all.len() > end.len() {
            let at = all.len() - end.len() - 1;
            assert(all[at] == end_of(before)[at]);
            if earlier.len() == 0 {
                assert(at == end_of(before).len() - 1);
                assert(end_of(before).last() == 10u8);
            }
        }
    }
    if before.truncated {
        lemma_trim_keeps_end(all, end, limit);
    } else if all.len() <= before.limit {
    } else {
        lemma_cut_keeps_end(all, end, before.limit);
    }
}

proof fn lemma_cut_keeps_end(all: Seq<u8>, end: Seq<u8>, size: nat)
    requires
        ends(all, end),
        0 < end.len() < tail_limit(size),
        all.last() == 10u8,
        all.len() == end.len() || all[all.len() - end.len() - 1] == 10u8,
        all.len() > size,
    ensures
        ({
            let at = aligned(all, head_limit(size)) as int;
            let kept = trimmed(all.skip(at), tail_limit(size));
            &&& at <= all.len()
            &&& whole_lines(all.take(at))
            &&& ends(kept, end)
            &&& whole_lines(kept)
            &&& kept.len() == end.len() || kept[kept.len() - end.len() - 1] == 10u8
        }),
{
    let at = aligned(all, head_limit(size)) as int;
    lemma_aligned(all, head_limit(size));
    lemma_aligned_is_line_end(all, head_limit(size));
    let start = all.len() - end.len();
    assert(head_limit(size) + tail_limit(size) <= size);
    assert(at <= start);
    let rest = all.skip(at);
    assert(rest.skip(rest.len() - end.len()) =~= all.skip(start));
    if rest.len() > end.len() {
        assert(rest[rest.len() - end.len() - 1] == all[start - 1]);
    }
    assert(rest.last() == all.last());
    lemma_trim_keeps_end(rest, end, tail_limit(size));
    if at > 0 {
        assert(all.take(at).last() == all[at - 1]);
    }
}

/// Trimming keeps an end of whole lines that is shorter than the limit.
proof fn lemma_trim_keeps_end(text: Seq<u8>, end: Seq<u8>, limit: nat)
    requires
        ends(text, end),
        0 < end.len() < limit,
        text.last() == 10u8,
        text.len() == end.len() || text[text.len() - end.len() - 1] == 10u8,
    ensures
        ({
            let kept = trimmed(text, limit);
            &&& ends(kept, end)
            &&& whole_lines(kept)
            &&& kept.len() == end.len() || kept[kept.len() - end.len() - 1] == 10u8
        }),
{
    if text.len() > limit {
        let excess = (text.len() - limit) as nat;
        let start = (text.len() - end.len()) as nat;
        assert(excess < start);
        lemma_line_end_reaches(text, excess, start);
        lemma_cut(text, excess);
        let at = cut(text, excess);
        assert(at <= start);
        let kept = text.skip(at as int);
        assert(kept.skip(kept.len() - end.len()) =~= text.skip(start as int));
        assert(kept.last() == text.last());
        if kept.len() > end.len() {
            assert(kept[kept.len() - end.len() - 1] == text[start - 1]);
        }
    }
}

proof fn lemma_line_end_reaches(text: Seq<u8>, from: nat, start: nat)
    requires
        from < start <= text.len(),
        text[start - 1] == 10u8,
    ensures
        line_end(text, from) matches Some(end) && end <= start,
    decreases text.len() - from,
{
    if text[from as int] != 10u8 {
        lemma_line_end_reaches(text, from + 1, start);
    }
}

/// A log becomes over-long exactly when it outgrows its limit, stays so, and keeps whole lines of its
/// beginning, which then stay as they are.
pub proof fn law_over_long_logs_begin_with_whole_lines(log: LogModel, line: Seq<u8>)
    requires
        log.bounded(),
        log.truncated ==> whole_lines(log.head),
    ensures
        log.pushed(line).truncated ==> whole_lines(log.pushed(line).head),
        log.truncated ==> log.pushed(line).head == log.head && log.pushed(line).truncated,
        !log.truncated ==> (log.pushed(line).truncated <==> log.head.len() + line.len()
            > log.limit),
{
    let all = log.head + line;
    let at = aligned(all, head_limit(log.limit));
    lemma_aligned(all, head_limit(log.limit));
    lemma_aligned_is_line_end(all, head_limit(log.limit));
    if at > 0 {
        assert(all.take(at as int).last() == all[at - 1]);
    }
}

/// A log holds nothing but the beginning and the end of what was written: all of it as long as it
/// fits, and whether it did is told.
pub proof fn law_logs_hold_what_was_written(limit: nat, entries: Seq<Seq<u8>>)
    ensures
        ({
            let log = pushed_all(LogModel::new(limit), entries);
            let all = together(entries);
            &&& log.bounded()
            &&& log.limit == limit
            &&& log.truncated <==> all.len() > limit
            &&& !log.truncated ==> log.text() == all
            &&& log.truncated ==> {
                &&& log.head.len() + log.tail.len() <= all.len()
                &&& log.head == all.take(log.head.len() as int)
                &&& log.tail == all.skip(all.len() - log.tail.len())
                &&& log.text() == log.head + log.tail || log.text() == log.head + marker() + log.tail
            }
        }),
    decreases entries.len(),
{
    let log = pushed_all(LogModel::new(limit), entries);
    let all = together(entries);
    if entries.len() == 0 {
        assert(log.head + log.tail =~= all);
    } else {
        let front = entries.drop_last();
        let line = entries.last();
        let before = pushed_all(LogModel::new(limit), front);
        let known = together(front);
        law_logs_hold_what_was_written(limit, front);
        law_logs_stay_bounded(before, line);
        assert(all =~= known + line);
        let size = tail_limit(limit);
        if before.truncated {
            let long = before.tail + line;
            if long.len() > size {
                lemma_cut(long, (long.len() - size) as nat);
            }
            assert(log.tail =~= all.skip(all.len() - log.tail.len()));
            assert(log.head =~= all.take(log.head.len() as int));
        } else {
            assert(before.head + before.tail =~= before.head);
            assert(before.head =~= known);
            if all.len() <= limit {
                assert(log.head + log.tail =~= all);
            } else {
                let at = aligned(all, head_limit(limit)) as int;
                lemma_aligned(all, head_limit(limit));
                let long = all.skip(at);
                if long.len() > size {
                    lemma_cut(long, (long.len() - size) as nat);
                }
                assert(log.head =~= all.take(log.head.len() as int));
                assert(log.tail =~= all.skip(all.len() - log.tail.len()));
            }
        }
    }
}

/// Beginning, marker and end of an over-long log have room in its limit, and beginning and end have
/// the same room, but for one byte.
pub proof fn law_beginning_and_end_share_the_room(limit: nat)
    ensures
        limit > MARKER_LEN ==> head_limit(limit) + MARKER_LEN + tail_limit(limit) == limit
            && tail_limit(limit) <= head_limit(limit) <= tail_limit(limit) + 1,
        limit <= MARKER_LEN ==> head_limit(limit) == 0 && tail_limit(limit) == limit,
        marker().len() == MARKER_LEN,
{
}

} // verus!
