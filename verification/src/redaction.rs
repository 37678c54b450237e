//! Log text without terminal control, in which registered secrets are replaced.

use vstd::prelude::*;

use crate::text;

verus! {

/// What stands in for a secret.
pub open spec fn stand_in() -> Seq<char> {
    "[REDACTED]"@
}

/// A control character that means nothing to a reader: all but the line end and the tab.
pub open spec fn is_noise(c: char) -> bool {
    (c as u32) < 32 && c != '\n' && c != '\t' || 127 <= c as u32 <= 159
}

/// The position behind a control sequence whose parameters start at `from`. A sequence that breaks
/// off ends where it does.
pub open spec fn sequence_end(text: Seq<char>, from: int) -> int
    decreases text.len() - from,
{
    if from >= text.len() {
        text.len() as int
    } else if 32 <= text[from] as u32 <= 63 {
        sequence_end(text, from + 1)
    } else if 64 <= text[from] as u32 <= 126 {
        from + 1
    } else {
        from
    }
}

/// The position behind an operating system command whose text starts at `from`. A command without
/// an end ends with its line.
pub open spec fn command_end(text: Seq<char>, from: int) -> int
    decreases text.len() - from,
{
    if from >= text.len() {
        text.len() as int
    } else if text[from] == '\u{7}' {
        from + 1
    } else if text[from] == '\n' {
        from
    } else if text[from] == '\u{1b}' && from + 1 < text.len() && text[from + 1] == '\\' {
        from + 2
    } else {
        command_end(text, from + 1)
    }
}

/// The position behind the escape sequence that starts at `from`.
pub open spec fn escape_end(text: Seq<char>, from: int) -> int {
    if from + 1 >= text.len() {
        text.len() as int
    } else if text[from + 1] == '[' {
        sequence_end(text, from + 2)
    } else if text[from + 1] == ']' {
        command_end(text, from + 2)
    } else {
        from + 2
    }
}

/// An escape sequence ends within the text, behind its start.
pub proof fn lemma_escape_end(text: Seq<char>, from: int)
    requires
        0 <= from < text.len(),
    ensures
        from < escape_end(text, from) <= text.len(),
{
    if from + 1 < text.len() {
        lemma_sequence_end(text, from + 2);
        lemma_command_end(text, from + 2);
    }
}

proof fn lemma_sequence_end(text: Seq<char>, from: int)
    requires
        from <= text.len(),
    ensures
        from <= sequence_end(text, from) <= text.len(),
    decreases text.len() - from,
{
    if from < text.len() {
        lemma_sequence_end(text, from + 1);
    }
}

proof fn lemma_command_end(text: Seq<char>, from: int)
    requires
        from <= text.len(),
    ensures
        from <= command_end(text, from) <= text.len(),
    decreases text.len() - from,
{
    if from < text.len() {
        lemma_command_end(text, from + 1);
    }
}

/// The text from `from` on without escape sequences and other noise.
pub open spec fn readable_from(text: Seq<char>, from: int) -> Seq<char>
    decreases text.len() - from,
{
    if from < 0 || from >= text.len() {
        Seq::empty()
    } else if text[from] == '\u{1b}' {
        proof {
            lemma_escape_end(text, from);
        }
        readable_from(text, escape_end(text, from))
    } else if is_noise(text[from]) {
        readable_from(text, from + 1)
    } else {
        seq![text[from]] + readable_from(text, from + 1)
    }
}

/// The length of the longest secret that stands at `from`, or nothing.
pub open spec fn secret_at(secrets: Seq<Seq<char>>, text: Seq<char>, from: int) -> nat
    decreases secrets.len(),
{
    if secrets.len() == 0 {
        0
    } else {
        let found = secret_at(secrets.drop_last(), text, from);
        let last = secrets.last();
        if text::starts(text.skip(from), last) && last.len() > found {
            last.len()
        } else {
            found
        }
    }
}

/// A secret that stands somewhere ends within the text.
pub proof fn lemma_secret_at(secrets: Seq<Seq<char>>, text: Seq<char>, from: int)
    requires
        0 <= from <= text.len(),
    ensures
        secret_at(secrets, text, from) <= text.len() - from,
    decreases secrets.len(),
{
    if secrets.len() > 0 {
        lemma_secret_at(secrets.drop_last(), text, from);
    }
}

/// The text from `from` on with every secret replaced, the longest one where several stand.
pub open spec fn redacted_from(secrets: Seq<Seq<char>>, text: Seq<char>, from: int) -> Seq<char>
    decreases text.len() - from,
{
    if from < 0 || from >= text.len() {
        Seq::empty()
    } else {
        let size = secret_at(secrets, text, from);
        proof {
            lemma_secret_at(secrets, text, from);
        }
        if size > 0 {
            stand_in() + redacted_from(secrets, text, from + size)
        } else {
            seq![text[from]] + redacted_from(secrets, text, from + 1)
        }
    }
}

/// What a reader may see of a log text.
pub open spec fn clean(secrets: Seq<Seq<char>>, text: Seq<char>) -> Seq<char> {
    redacted_from(secrets, readable_from(text, 0), 0)
}

/// Returns the position behind the escape sequence that starts at `from`.
fn skip_escape(chars: &Vec<char>, from: usize) -> (result: usize)
    requires
        from < chars@.len(),
    ensures
        result == escape_end(chars@, from as int),
        from < result <= chars@.len(),
{
    let size = chars.len();
    proof {
        lemma_escape_end(chars@, from as int);
    }
    if size - from < 2 {
        return size;
    }
    let mut i: usize = from + 2;
    if chars[from + 1] == '[' {
        while i < size && 32 <= chars[i] as u32 && chars[i] as u32 <= 63
            invariant
                size == chars@.len(),
                i <= size,
                sequence_end(chars@, i as int) == sequence_end(chars@, from + 2),
            decreases size - i,
        {
            i = i + 1;
        }
        if i < size && 64 <= chars[i] as u32 && chars[i] as u32 <= 126 {
            return i + 1;
        }
        i
    } else if chars[from + 1] == ']' {
        while i < size
            invariant
                size == chars@.len(),
                from < i <= size,
                from + 1 < size,
                chars@[from + 1] == ']',
                command_end(chars@, i as int) == command_end(chars@, from + 2),
            decreases size - i,
        {
            if chars[i] == '\u{7}' {
                return i + 1;
            }
            if chars[i] == '\n' {
                return i;
            }
            if chars[i] == '\u{1b}' && size - i > 1 && chars[i + 1] == '\\' {
                return i + 2;
            }
            i = i + 1;
        }
        i
    } else {
        i
    }
}

/// Returns the text without escape sequences and other noise.
fn readable(text: &str) -> (result: Vec<char>)
    ensures
        result@ == readable_from(text@, 0),
{
    let chars = text::characters(text);
    let size = chars.len();
    let mut result: Vec<char> = Vec::new();
    let mut i: usize = 0;
    assert(result@ + readable_from(text@, 0) =~= readable_from(text@, 0));
    while i < size
        invariant
            chars@ == text@,
            size == chars@.len(),
            i <= size,
            result@ + readable_from(text@, i as int) == readable_from(text@, 0),
        decreases size - i,
    {
        let c = chars[i];
        if c == '\u{1b}' {
            i = skip_escape(&chars, i);
        } else {
            let code: u32 = c as u32;
            let noise = code < 32 && c != '\n' && c != '\t' || 127 <= code && code <= 159;
            if !noise {
                let ghost before = result@;
                result.push(c);
                assert(result@ + readable_from(text@, i + 1) =~= before + readable_from(
                    text@,
                    i as int,
                ));
            }
            i = i + 1;
        }
    }
    assert(result@ + readable_from(text@, i as int) =~= result@);
    result
}

/// Replaces registered secrets in log text.
#[derive(Debug, PartialEq, Eq)]
pub struct Redactor {
    secrets: Vec<Vec<char>>,
}

impl Redactor {
    /// The registered secrets, in the order of their registration.
    pub closed spec fn secrets(&self) -> Seq<Seq<char>> {
        Seq::new(self.secrets@.len(), |i: int| self.secrets@[i]@)
    }

    /// Creates a redactor without secrets.
    pub fn new() -> (result: Self)
        ensures
            result.secrets() == Seq::<Seq<char>>::empty(),
    {
        let result = Redactor { secrets: Vec::new() };
        assert(result.secrets() =~= Seq::<Seq<char>>::empty());
        result
    }

    /// Registers a secret. An empty one stands nowhere.
    pub fn register(&mut self, secret: &str)
        ensures
            final(self).secrets() == old(self).secrets().push(secret@),
    {
        self.secrets.push(text::characters(secret));
        assert(self.secrets() =~= old(self).secrets().push(secret@));
    }

    /// Returns the length of the longest secret that stands at `from`, or nothing.
    fn find(&self, chars: &Vec<char>, from: usize) -> (result: usize)
        requires
            from <= chars@.len(),
        ensures
            result == secret_at(self.secrets(), chars@, from as int),
            result <= chars@.len() - from,
    {
        let mut found: usize = 0;
        let mut k: usize = 0;
        assert(self.secrets().take(0) =~= Seq::<Seq<char>>::empty());
        while k < self.secrets.len()
            invariant
                k <= self.secrets@.len(),
                self.secrets().len() == self.secrets@.len(),
                from <= chars@.len(),
                found == secret_at(self.secrets().take(k as int), chars@, from as int),
                found <= chars@.len() - from,
            decreases self.secrets@.len() - k,
        {
            proof {
                assert(self.secrets().take(k + 1).drop_last() =~= self.secrets().take(k as int));
                assert(self.secrets().take(k + 1).last() == self.secrets@[k as int]@);
            }
            if self.secrets[k].len() > found && text::matches_at(chars, &self.secrets[k], from) {
                found = self.secrets[k].len();
            }
            k = k + 1;
        }
        assert(self.secrets().take(k as int) =~= self.secrets());
        found
    }

    /// Returns what a reader may see of a log text.
    pub fn clean(&self, text: &str) -> (result: String)
        ensures
            result@ == clean(self.secrets(), text@),
    {
        let chars = readable(text);
        let ghost secrets = self.secrets();
        let size = chars.len();
        let marker = text::characters("[REDACTED]");
        let mut result: Vec<char> = Vec::new();
        let mut i: usize = 0;
        assert(result@ + redacted_from(secrets, chars@, 0) =~= redacted_from(secrets, chars@, 0));
        while i < size
            invariant
                secrets == self.secrets(),
                size == chars@.len(),
                i <= size,
                marker@ == stand_in(),
                result@ + redacted_from(secrets, chars@, i as int) == redacted_from(
                    secrets,
                    chars@,
                    0,
                ),
            decreases size - i,
        {
            let found = self.find(&chars, i);
            let ghost before = result@;
            if found > 0 {
                result.extend_from_slice(marker.as_slice());
                assert(result@ =~= before + stand_in());
                assert(result@ + redacted_from(secrets, chars@, i + found) =~= before
                    + redacted_from(secrets, chars@, i as int));
                i = i + found;
            } else {
                result.push(chars[i]);
                assert(result@ + redacted_from(secrets, chars@, i + 1) =~= before + redacted_from(
                    secrets,
                    chars@,
                    i as int,
                ));
                i = i + 1;
            }
        }
        assert(result@ + redacted_from(secrets, chars@, i as int) =~= result@);
        let end = result.len();
        let out = text::from_characters(&result, 0, end);
        assert(out@ =~= result@);
        out
    }
}

/// Readable text holds no control characters but line ends and tabs.
pub proof fn law_readable_text_has_no_noise(text: Seq<char>, from: int, i: int)
    requires
        0 <= from,
        0 <= i < readable_from(text, from).len(),
    ensures
        !is_noise(readable_from(text, from)[i]),
    decreases text.len() - from,
{
    if from < text.len() {
        if text[from] == '\u{1b}' {
            lemma_escape_end(text, from);
            law_readable_text_has_no_noise(text, escape_end(text, from), i);
        } else if is_noise(text[from]) {
            law_readable_text_has_no_noise(text, from + 1, i);
        } else if i > 0 {
            law_readable_text_has_no_noise(text, from + 1, i - 1);
        }
    }
}

/// Text without control characters and secrets stays as it is.
pub proof fn law_harmless_text_is_unchanged(secrets: Seq<Seq<char>>, text: Seq<char>)
    requires
        forall|i: int| 0 <= i < text.len() ==> !is_noise(#[trigger] text[i]),
        forall|k: int, i: int|
            0 <= k < secrets.len() && 0 <= i <= text.len() && secrets[k].len() > 0
                ==> !text::starts(#[trigger] text.skip(i), #[trigger] secrets[k]),
    ensures
        clean(secrets, text) == text,
{
    lemma_readable(text, 0);
    lemma_redacted(secrets, text, 0);
    assert(text.skip(0) =~= text);
}

proof fn lemma_readable(text: Seq<char>, from: int)
    requires
        0 <= from <= text.len(),
        forall|i: int| 0 <= i < text.len() ==> !is_noise(#[trigger] text[i]),
    ensures
        readable_from(text, from) == text.skip(from),
    decreases text.len() - from,
{
    if from < text.len() {
        lemma_readable(text, from + 1);
        assert(is_noise('\u{1b}'));
        assert(text.skip(from) =~= seq![text[from]] + text.skip(from + 1));
    } else {
        assert(text.skip(from) =~= Seq::empty());
    }
}

proof fn lemma_secret_free(secrets: Seq<Seq<char>>, text: Seq<char>, from: int)
    requires
        0 <= from <= text.len(),
        forall|k: int|
            0 <= k < secrets.len() && secrets[k].len() > 0 ==> !text::starts(
                text.skip(from),
                #[trigger] secrets[k],
            ),
    ensures
        secret_at(secrets, text, from) == 0,
    decreases secrets.len(),
{
    if secrets.len() > 0 {
        let front = secrets.drop_last();
        assert forall|k: int| 0 <= k < front.len() && front[k].len() > 0 implies !text::starts(
            text.skip(from),
            #[trigger] front[k],
        ) by {
            assert(front[k] == secrets[k]);
        }
        lemma_secret_free(front, text, from);
        assert(secrets.last() == secrets[secrets.len() - 1]);
    }
}

proof fn lemma_redacted(secrets: Seq<Seq<char>>, text: Seq<char>, from: int)
    requires
        0 <= from <= text.len(),
        forall|k: int, i: int|
            0 <= k < secrets.len() && 0 <= i <= text.len() && secrets[k].len() > 0
                ==> !text::starts(#[trigger] text.skip(i), #[trigger] secrets[k]),
    ensures
        redacted_from(secrets, text, from) == text.skip(from),
    decreases text.len() - from,
{
    if from < text.len() {
        lemma_redacted(secrets, text, from + 1);
        lemma_secret_free(secrets, text, from);
        assert(text.skip(from) =~= seq![text[from]] + text.skip(from + 1));
    } else {
        assert(text.skip(from) =~= Seq::empty());
    }
}

/// Which characters of the redacted text from `from` on stand in for a secret.
pub open spec fn hidden_from(secrets: Seq<Seq<char>>, text: Seq<char>, from: int) -> Seq<bool>
    decreases text.len() - from,
{
    if from < 0 || from >= text.len() {
        Seq::empty()
    } else {
        let size = secret_at(secrets, text, from);
        proof {
            lemma_secret_at(secrets, text, from);
        }
        if size > 0 {
            Seq::new(stand_in().len(), |i: int| true) + hidden_from(secrets, text, from + size)
        } else {
            seq![false] + hidden_from(secrets, text, from + 1)
        }
    }
}

/// Which characters of a clean text stand in for a secret.
pub open spec fn hidden(secrets: Seq<Seq<char>>, text: Seq<char>) -> Seq<bool> {
    hidden_from(secrets, readable_from(text, 0), 0)
}

/// Every character of a redacted text is marked, and those of a stand-in are the stand-in's.
proof fn lemma_hidden(secrets: Seq<Seq<char>>, text: Seq<char>, from: int)
    requires
        0 <= from,
    ensures
        hidden_from(secrets, text, from).len() == redacted_from(secrets, text, from).len(),
        forall|i: int|
            0 <= i < hidden_from(secrets, text, from).len() && #[trigger] hidden_from(
                secrets,
                text,
                from,
            )[i] ==> stand_in().contains(redacted_from(secrets, text, from)[i]),
    decreases text.len() - from,
{
    if from < text.len() {
        let size = secret_at(secrets, text, from);
        let marks = hidden_from(secrets, text, from);
        let shown = redacted_from(secrets, text, from);
        lemma_secret_at(secrets, text, from);
        if size > 0 {
            let rest = hidden_from(secrets, text, from + size);
            lemma_hidden(secrets, text, from + size);
            assert forall|i: int| 0 <= i < marks.len() && #[trigger] marks[i] implies
                stand_in().contains(shown[i]) by {
                if i < stand_in().len() {
                    assert(shown[i] == stand_in()[i]);
                } else {
                    assert(marks[i] == rest[i - stand_in().len()]);
                }
            }
        } else {
            let rest = hidden_from(secrets, text, from + 1);
            lemma_hidden(secrets, text, from + 1);
            assert forall|i: int| 0 <= i < marks.len() && #[trigger] marks[i] implies
                stand_in().contains(shown[i]) by {
                if i > 0 {
                    assert(marks[i] == rest[i - 1]);
                }
            }
        }
    }
}

/// Up to the first stand-in, a redacted text is the text itself.
proof fn lemma_bare_start(secrets: Seq<Seq<char>>, text: Seq<char>, from: int, count: int)
    requires
        0 <= from,
        0 <= count <= redacted_from(secrets, text, from).len(),
        forall|i: int| 0 <= i < count ==> !#[trigger] hidden_from(secrets, text, from)[i],
    ensures
        count > 0 ==> from + count <= text.len(),
        forall|i: int|
            0 <= i < count ==> #[trigger] redacted_from(secrets, text, from)[i] == text[from + i],
    decreases count,
{
    if count > 0 {
        let marks = hidden_from(secrets, text, from);
        let shown = redacted_from(secrets, text, from);
        assert(from < text.len());
        lemma_hidden(secrets, text, from);
        if secret_at(secrets, text, from) > 0 {
            reveal_strlit("[REDACTED]");
            assert(marks[0]);
        } else {
            let rest = hidden_from(secrets, text, from + 1);
            assert forall|i: int| 0 <= i < count - 1 implies !#[trigger] rest[i] by {
                assert(marks[i + 1] == rest[i]);
            }
            lemma_bare_start(secrets, text, from + 1, count - 1);
            assert forall|i: int| 0 <= i < count implies #[trigger] shown[i] == text[from + i] by {
                if i > 0 {
                    assert(shown[i] == redacted_from(secrets, text, from + 1)[i - 1]);
                }
            }
        }
    }
}

/// Where a secret stands, one that is at least as long is found.
proof fn lemma_secret_found(secrets: Seq<Seq<char>>, text: Seq<char>, from: int, k: int)
    requires
        0 <= k < secrets.len(),
        text::starts(text.skip(from), secrets[k]),
    ensures
        secret_at(secrets, text, from) >= secrets[k].len(),
    decreases secrets.len(),
{
    if k < secrets.len() - 1 {
        assert(secrets.drop_last()[k] == secrets[k]);
        lemma_secret_found(secrets.drop_last(), text, from, k);
    }
}

/// A secret in a redacted text holds a character of a stand-in.
proof fn lemma_secrets_are_hidden(
    secrets: Seq<Seq<char>>,
    text: Seq<char>,
    from: int,
    k: int,
    at: int,
) -> (i: int)
    requires
        0 <= from,
        0 <= k < secrets.len(),
        secrets[k].len() > 0,
        0 <= at <= redacted_from(secrets, text, from).len(),
        text::starts(redacted_from(secrets, text, from).skip(at), secrets[k]),
    ensures
        at <= i < at + secrets[k].len(),
        at + secrets[k].len() <= hidden_from(secrets, text, from).len(),
        hidden_from(secrets, text, from)[i],
    decreases text.len() - from,
{
    let shown = redacted_from(secrets, text, from);
    let marks = hidden_from(secrets, text, from);
    let secret = secrets[k];
    let size = secret_at(secrets, text, from);
    lemma_hidden(secrets, text, from);
    lemma_secret_at(secrets, text, from);
    assert(from < text.len());
    if size > 0 {
        let gap = stand_in().len() as int;
        if at < gap {
            assert(marks[at]);
            at
        } else {
            let rest = redacted_from(secrets, text, from + size);
            assert(rest.skip(at - gap) =~= shown.skip(at));
            let i = lemma_secrets_are_hidden(secrets, text, from + size, k, at - gap);
            assert(marks[i + gap] == hidden_from(secrets, text, from + size)[i]);
            i + gap
        }
    } else if at > 0 {
        let rest = redacted_from(secrets, text, from + 1);
        assert(rest.skip(at - 1) =~= shown.skip(at));
        let i = lemma_secrets_are_hidden(secrets, text, from + 1, k, at - 1);
        assert(marks[i + 1] == hidden_from(secrets, text, from + 1)[i]);
        i + 1
    } else {
        if forall|i: int| 0 <= i < secret.len() ==> !#[trigger] marks[i] {
            lemma_bare_start(secrets, text, from, secret.len() as int);
            assert(shown.skip(0) =~= shown);
            assert forall|i: int| 0 <= i < secret.len() implies #[trigger] secret[i] == text.skip(
                from,
            )[i] by {
                assert(shown.take(secret.len() as int)[i] == secret[i]);
                assert(shown[i] == text[from + i]);
            }
            assert(text.skip(from).take(secret.len() as int) =~= secret);
            lemma_secret_found(secrets, text, from, k);
        }
        choose|i: int| 0 <= i < secret.len() && #[trigger] marks[i]
    }
}

/// Wherever a registered secret can be read in a clean text, it is made up by a stand-in: at least
/// one of its characters there belongs to one.
pub proof fn law_secrets_are_hidden(
    secrets: Seq<Seq<char>>,
    text: Seq<char>,
    k: int,
    at: int,
)
    requires
        0 <= k < secrets.len(),
        secrets[k].len() > 0,
        0 <= at <= clean(secrets, text).len(),
        text::starts(clean(secrets, text).skip(at), secrets[k]),
    ensures
        hidden(secrets, text).len() == clean(secrets, text).len(),
        exists|i: int| at <= i < at + secrets[k].len() && #[trigger] hidden(secrets, text)[i],
{
    let readable = readable_from(text, 0);
    lemma_hidden(secrets, readable, 0);
    let i = lemma_secrets_are_hidden(secrets, readable, 0, k, at);
    assert(hidden(secrets, text)[i]);
}

/// A registered secret that shares no character with the stand-in cannot be read in a clean text.
pub proof fn law_clean_text_shows_no_secret(secrets: Seq<Seq<char>>, text: Seq<char>, k: int)
    requires
        0 <= k < secrets.len(),
        secrets[k].len() > 0,
        forall|i: int| 0 <= i < secrets[k].len() ==> !stand_in().contains(#[trigger] secrets[k][i]),
    ensures
        !text::occurs(clean(secrets, text), secrets[k]),
{
    let readable = readable_from(text, 0);
    let shown = clean(secrets, text);
    let secret = secrets[k];
    if text::occurs(shown, secret) {
        let at = choose|at: int|
            0 <= at <= shown.len() && text::starts(#[trigger] shown.skip(at), secret);
        let i = lemma_secrets_are_hidden(secrets, readable, 0, k, at);
        lemma_hidden(secrets, readable, 0);
        assert(stand_in().contains(shown[i]));
        assert(shown.skip(at).take(secret.len() as int)[i - at] == shown[i]);
        assert(secret[i - at] == shown[i]);
    }
}

proof fn lemma_sequence_end_behind(front: Seq<char>, text: Seq<char>, from: int)
    requires
        0 <= from,
    ensures
        from <= text.len() ==> sequence_end(front + text, front.len() + from) == front.len()
            + sequence_end(text, from),
        from <= text.len() ==> command_end(front + text, front.len() + from) == front.len()
            + command_end(text, from),
    decreases text.len() - from,
{
    if from < text.len() {
        lemma_sequence_end_behind(front, text, from + 1);
    }
}

/// What a reader may see of a text does not depend on what stands in front of it.
proof fn lemma_readable_behind(front: Seq<char>, text: Seq<char>, from: int)
    requires
        0 <= from <= text.len(),
    ensures
        readable_from(front + text, front.len() + from) == readable_from(text, from),
    decreases text.len() - from,
{
    if from < text.len() {
        let at = front.len() + from;
        assert((front + text)[at] == text[from]);
        if text[from] == '\u{1b}' {
            lemma_escape_end(text, from);
            if from + 1 < text.len() {
                assert((front + text)[at + 1] == text[from + 1]);
                lemma_sequence_end_behind(front, text, from + 2);
            }
            assert(escape_end(front + text, at) == front.len() + escape_end(text, from));
            lemma_readable_behind(front, text, escape_end(text, from));
        } else {
            lemma_readable_behind(front, text, from + 1);
        }
    }
}

proof fn lemma_readable_front(front: Seq<char>, text: Seq<char>, from: int)
    requires
        0 <= from <= front.len(),
        forall|i: int| 0 <= i < front.len() ==> !is_noise(#[trigger] front[i]),
    ensures
        readable_from(front + text, from) == front.skip(from) + readable_from(text, 0),
    decreases front.len() - from,
{
    if from < front.len() {
        lemma_readable_front(front, text, from + 1);
        assert(is_noise('\u{1b}'));
        assert((front + text)[from] == front[from]);
        assert(readable_from(front + text, from) =~= front.skip(from) + readable_from(text, 0));
    } else {
        lemma_readable_behind(front, text, 0);
        assert(readable_from(front + text, from) =~= front.skip(from) + readable_from(text, 0));
    }
}

proof fn lemma_parameters(text: Seq<char>, from: int, to: int)
    requires
        0 <= from <= to < text.len(),
        forall|i: int| from <= i < to ==> 32 <= (#[trigger] text[i]) as u32 <= 63,
        64 <= text[to] as u32 <= 126,
    ensures
        sequence_end(text, from) == to + 1,
    decreases to - from,
{
    if from < to {
        lemma_parameters(text, from + 1, to);
    }
}

/// Behind text that a reader may see, a control character is dropped, and so is a control sequence
/// with its parameters and its final character; what stands behind it is read as if it stood alone.
pub proof fn law_control_is_dropped(
    front: Seq<char>,
    noise: char,
    parameters: Seq<char>,
    last: char,
    rest: Seq<char>,
)
    requires
        forall|i: int| 0 <= i < front.len() ==> !is_noise(#[trigger] front[i]),
        is_noise(noise) && noise != '\u{1b}',
        forall|i: int| 0 <= i < parameters.len() ==> 32 <= (#[trigger] parameters[i]) as u32 <= 63,
        64 <= last as u32 <= 126,
    ensures
        readable_from(front + seq![noise] + rest, 0) == front + readable_from(rest, 0),
        readable_from(front + (seq!['\u{1b}', '['] + parameters + seq![last]) + rest, 0) == front
            + readable_from(rest, 0),
{
    assert(front.skip(0) =~= front);
    let text = seq![noise] + rest;
    lemma_readable_front(front, text, 0);
    assert(front + text =~= front + seq![noise] + rest);
    lemma_readable_behind(seq![noise], rest, 0);
    assert(text[0] == noise);
    assert(readable_from(text, 0) == readable_from(text, 1));
    let escape = seq!['\u{1b}', '['] + parameters + seq![last];
    let text = escape + rest;
    lemma_readable_front(front, text, 0);
    assert(front + text =~= front + escape + rest);
    let to = parameters.len() + 2;
    assert forall|i: int| 2 <= i < to implies 32 <= (#[trigger] text[i]) as u32 <= 63 by {
        assert(text[i] == parameters[i - 2]);
    }
    assert(text[0] == '\u{1b}' && text[1] == '[' && text[to as int] == last);
    lemma_parameters(text, 2, to as int);
    lemma_readable_behind(escape, rest, 0);
    assert(readable_from(text, 0) == readable_from(text, to as int + 1));
}

proof fn lemma_command(text: Seq<char>, from: int, to: int)
    requires
        0 <= from <= to < text.len(),
        forall|i: int|
            from <= i < to ==> #[trigger] text[i] != '\u{7}' && text[i] != '\n' && text[i]
                != '\u{1b}',
        text[to] == '\u{7}' || text[to] == '\n' || (text[to] == '\u{1b}' && to + 1 < text.len()
            && text[to + 1] == '\\'),
    ensures
        command_end(text, from) == if text[to] == '\u{7}' {
            to + 1
        } else if text[to] == '\n' {
            to
        } else {
            to + 2
        },
    decreases to - from,
{
    if from < to {
        lemma_command(text, from + 1, to);
    }
}

/// Behind text that a reader may see, a command to the terminal is dropped up to its end, and one
/// without an end up to the end of its line, which stays.
pub proof fn law_terminal_commands_are_dropped(
    front: Seq<char>,
    command: Seq<char>,
    rest: Seq<char>,
)
    requires
        forall|i: int| 0 <= i < front.len() ==> !is_noise(#[trigger] front[i]),
        forall|i: int|
            0 <= i < command.len() ==> #[trigger] command[i] != '\u{7}' && command[i] != '\n'
                && command[i] != '\u{1b}',
    ensures
        readable_from(front + (seq!['\u{1b}', ']'] + command + seq!['\u{7}']) + rest, 0) == front
            + readable_from(rest, 0),
        readable_from(front + (seq!['\u{1b}', ']'] + command + seq!['\u{1b}', '\\']) + rest, 0)
            == front + readable_from(rest, 0),
        readable_from(front + (seq!['\u{1b}', ']'] + command) + (seq!['\n'] + rest), 0) == front
            + seq!['\n'] + readable_from(rest, 0),
{
    let opening = seq!['\u{1b}', ']'];
    lemma_command_dropped(front, command, seq!['\u{7}'], rest);
    lemma_command_dropped(front, command, seq!['\u{1b}', '\\'], rest);
    let line = seq!['\n'] + rest;
    let text = opening + command + line;
    assert(front.skip(0) =~= front);
    lemma_readable_front(front, text, 0);
    assert(front + text =~= front + (opening + command) + line);
    let to = command.len() as int + 2;
    assert forall|i: int| 2 <= i < to implies #[trigger] text[i] != '\u{7}' && text[i] != '\n'
        && text[i] != '\u{1b}' by {
        assert(text[i] == command[i - 2]);
    }
    assert(text[0] == '\u{1b}' && text[1] == ']' && text[to] == '\n');
    lemma_command(text, 2, to);
    assert(readable_from(text, 0) == readable_from(text, to));
    lemma_readable_behind(opening + command, line, 0);
    assert(opening + command + line =~= (opening + command) + line);
    assert(line[0] == '\n' && !is_noise('\n'));
    lemma_readable_behind(seq!['\n'], rest, 0);
    assert(readable_from(line, 0) =~= seq!['\n'] + readable_from(rest, 0));
    assert(front + readable_from(line, 0) =~= front + seq!['\n'] + readable_from(rest, 0));
}

proof fn lemma_command_dropped(
    front: Seq<char>,
    command: Seq<char>,
    ending: Seq<char>,
    rest: Seq<char>,
)
    requires
        forall|i: int| 0 <= i < front.len() ==> !is_noise(#[trigger] front[i]),
        forall|i: int|
            0 <= i < command.len() ==> #[trigger] command[i] != '\u{7}' && command[i] != '\n'
                && command[i] != '\u{1b}',
        ending == seq!['\u{7}'] || ending == seq!['\u{1b}', '\\'],
    ensures
        readable_from(front + (seq!['\u{1b}', ']'] + command + ending) + rest, 0) == front
            + readable_from(rest, 0),
{
    let escape = seq!['\u{1b}', ']'] + command + ending;
    let text = escape + rest;
    assert(front.skip(0) =~= front);
    lemma_readable_front(front, text, 0);
    assert(front + text =~= front + escape + rest);
    let to = command.len() as int + 2;
    assert forall|i: int| 2 <= i < to implies #[trigger] text[i] != '\u{7}' && text[i] != '\n'
        && text[i] != '\u{1b}' by {
        assert(text[i] == command[i - 2]);
    }
    assert(text[0] == '\u{1b}' && text[1] == ']' && text[to] == ending[0]);
    if ending.len() == 2 {
        assert(text[to + 1] == ending[1]);
    }
    lemma_command(text, 2, to);
    lemma_readable_behind(escape, rest, 0);
    assert(readable_from(text, 0) == readable_from(text, escape.len() as int));
}

proof fn lemma_redacted_behind(
    secrets: Seq<Seq<char>>,
    front: Seq<char>,
    text: Seq<char>,
    from: int,
)
    requires
        0 <= from <= text.len(),
    ensures
        redacted_from(secrets, front + text, front.len() + from) == redacted_from(
            secrets,
            text,
            from,
        ),
    decreases text.len() - from,
{
    if from < text.len() {
        let at = front.len() + from;
        lemma_secret_at(secrets, text, from);
        assert((front + text).skip(at) =~= text.skip(from));
        lemma_same_secret(secrets, front + text, at, text, from);
        let size = secret_at(secrets, text, from);
        if size > 0 {
            lemma_redacted_behind(secrets, front, text, from + size);
        } else {
            lemma_redacted_behind(secrets, front, text, from + 1);
        }
    }
}

proof fn lemma_same_secret(
    secrets: Seq<Seq<char>>,
    a: Seq<char>,
    i: int,
    b: Seq<char>,
    j: int,
)
    requires
        a.skip(i) == b.skip(j),
    ensures
        secret_at(secrets, a, i) == secret_at(secrets, b, j),
    decreases secrets.len(),
{
    if secrets.len() > 0 {
        lemma_same_secret(secrets.drop_last(), a, i, b, j);
    }
}

proof fn lemma_longest_secret(secrets: Seq<Seq<char>>, text: Seq<char>, from: int, size: nat)
    requires
        forall|k: int|
            0 <= k < secrets.len() && text::starts(text.skip(from), #[trigger] secrets[k])
                ==> secrets[k].len() <= size,
    ensures
        secret_at(secrets, text, from) <= size,
        (exists|k: int|
            0 <= k < secrets.len() && text::starts(text.skip(from), #[trigger] secrets[k])
                && secrets[k].len() == size) ==> secret_at(secrets, text, from) == size,
    decreases secrets.len(),
{
    if secrets.len() > 0 {
        let front = secrets.drop_last();
        assert forall|k: int|
            0 <= k < front.len() && text::starts(text.skip(from), #[trigger] front[k])
            implies front[k].len() <= size by {
            assert(front[k] == secrets[k]);
        }
        lemma_longest_secret(front, text, from, size);
        assert(secrets.last() == secrets[secrets.len() - 1]);
        if exists|k: int|
            0 <= k < secrets.len() && text::starts(text.skip(from), #[trigger] secrets[k])
                && secrets[k].len() == size {
            let k = choose|k: int|
                0 <= k < secrets.len() && text::starts(text.skip(from), #[trigger] secrets[k])
                    && secrets[k].len() == size;
            if k < front.len() {
                assert(front[k] == secrets[k]);
            }
        }
    }
}

/// A registered secret is replaced by the stand-in wherever it is the longest that stands there and
/// none begins before it; the text in front stays, and what stands behind is redacted as if it
/// stood alone.
pub proof fn law_secrets_are_replaced(
    secrets: Seq<Seq<char>>,
    front: Seq<char>,
    k: int,
    rest: Seq<char>,
)
    requires
        0 <= k < secrets.len(),
        secrets[k].len() > 0,
        forall|m: int, i: int|
            0 <= m < secrets.len() && 0 <= i < front.len() && secrets[m].len() > 0
                ==> !text::starts(
                #[trigger] (front + secrets[k] + rest).skip(i),
                #[trigger] secrets[m],
            ),
        forall|m: int|
            0 <= m < secrets.len() && text::starts(secrets[k] + rest, #[trigger] secrets[m])
                ==> secrets[m].len() <= secrets[k].len(),
    ensures
        redacted_from(secrets, front + secrets[k] + rest, 0) == front + stand_in() + redacted_from(
            secrets,
            rest,
            0,
        ),
{
    let whole = front + secrets[k] + rest;
    let at = front.len() as int;
    let tail = secrets[k] + rest;
    assert(whole =~= front + tail);
    lemma_front_stays(secrets, front, tail, 0);
    assert(front.skip(0) =~= front);
    assert(tail.skip(0) =~= tail);
    text::lemma_starts_itself(secrets[k], rest);
    lemma_longest_secret(secrets, tail, 0, secrets[k].len());
    assert(secret_at(secrets, tail, 0) == secrets[k].len());
    lemma_redacted_behind(secrets, secrets[k], rest, 0);
    assert(redacted_from(secrets, tail, 0) == stand_in() + redacted_from(secrets, rest, 0));
    assert(front + (stand_in() + redacted_from(secrets, rest, 0)) =~= front + stand_in()
        + redacted_from(secrets, rest, 0));
}

proof fn lemma_front_stays(
    secrets: Seq<Seq<char>>,
    front: Seq<char>,
    tail: Seq<char>,
    from: int,
)
    requires
        0 <= from <= front.len(),
        forall|m: int, i: int|
            0 <= m < secrets.len() && 0 <= i < front.len() && secrets[m].len() > 0
                ==> !text::starts(#[trigger] (front + tail).skip(i), #[trigger] secrets[m]),
    ensures
        redacted_from(secrets, front + tail, from) == front.skip(from) + redacted_from(
            secrets,
            tail,
            0,
        ),
    decreases front.len() - from,
{
    let whole = front + tail;
    if from < front.len() {
        lemma_front_stays(secrets, front, tail, from + 1);
        assert forall|m: int|
            0 <= m < secrets.len() && text::starts(whole.skip(from), #[trigger] secrets[m])
            implies secrets[m].len() <= 0 by {
            assert(secrets[m].len() > 0 ==> !text::starts(whole.skip(from), secrets[m]));
        }
        lemma_longest_secret(secrets, whole, from, 0);
        assert(redacted_from(secrets, whole, from) =~= front.skip(from) + redacted_from(
            secrets,
            tail,
            0,
        ));
    } else {
        lemma_redacted_behind(secrets, front, tail, 0);
        assert(redacted_from(secrets, whole, from) =~= front.skip(from) + redacted_from(
            secrets,
            tail,
            0,
        ));
    }
}

} // verus!
