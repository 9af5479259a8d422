//! The log of a child process's output as the desktop tool shows it, the way
//! a terminal would: a carriage return moves the cursor back to the start of
//! the current line and what follows overwrites it, a line feed starts a new
//! line; only the newest output is retained.
use vstd::prelude::*;
use vstd::string::StringExecFns;
use vstd::string::StringSliceAdditionalSpecFns;
use vstd::utf8::*;
use crate::error::string_from_chars;

verus! {

/// Maximum amount of child output retained, in bytes.
pub const MAX_BYTES: usize = 256 * 1024;

/// Where the current line of a text starts: just after its last line feed,
/// or at its start if it has none.
pub open spec fn line_start(text: Seq<char>) -> int
    decreases text.len(),
{
    if text.len() == 0 {
        0
    } else if text.last() == '\n' {
        text.len() as int
    } else {
        line_start(text.drop_last())
    }
}

/// A log, its text and cursor, after one more character of output: a
/// carriage return moves the cursor to the start of the current line without
/// deleting anything, a line feed keeps the line and starts a new one, any
/// other character overwrites the one under the cursor or, at the end of the
/// line, is appended.
pub open spec fn put_char(log: (Seq<char>, int), c: char) -> (Seq<char>, int) {
    let text = log.0;
    let cursor = log.1;
    if c == '\r' {
        (text, line_start(text))
    } else if c == '\n' {
        (text.push('\n'), (text.len() + 1) as int)
    } else if cursor < text.len() {
        (text.update(cursor, c), cursor + 1)
    } else {
        (text.push(c), (text.len() + 1) as int)
    }
}

/// A log after a chunk of output.
pub open spec fn put_chunk(log: (Seq<char>, int), chunk: Seq<char>) -> (Seq<char>, int)
    decreases chunk.len(),
{
    if chunk.len() == 0 {
        log
    } else {
        put_char(put_chunk(log, chunk.drop_last()), chunk.last())
    }
}

/// A log is well formed when its cursor is on the current line.
pub open spec fn log_wf(log: (Seq<char>, int)) -> bool {
    line_start(log.0) <= log.1 <= log.0.len()
}

/// A log whose text has been cut down to `kept`, a suffix of it: the cursor
/// moves back with the text, to the start at the least.
pub open spec fn cut_to(log: (Seq<char>, int), kept: Seq<char>) -> (Seq<char>, int) {
    let dropped = log.0.len() - kept.len();
    (kept, if log.1 >= dropped { log.1 - dropped } else { 0 })
}

/// A log after output and trimming: as `put`, if its text encodes to at
/// most [`MAX_BYTES`] bytes, else cut at the trim start.
pub open spec fn trimmed_ok(put: (Seq<char>, int), result: (Seq<char>, int)) -> bool {
    let bytes = encode_utf8(put.0);
    &&& bytes.len() <= MAX_BYTES ==> result == put
    &&& bytes.len() > MAX_BYTES ==> exists|start: int| {
        &&& is_trim_start(bytes, start)
        &&& encode_utf8(result.0) == bytes.subrange(start, bytes.len() as int)
        &&& result == cut_to(put, result.0)
    }
}

/// `start` is where trimming a text with the UTF-8 encoding `bytes` cuts it:
/// the first character boundary that leaves at most [`MAX_BYTES`].
pub open spec fn is_trim_start(bytes: Seq<u8>, start: int) -> bool {
    &&& bytes.len() - MAX_BYTES <= start <= bytes.len()
    &&& is_char_boundary(bytes, start)
    &&& forall|j: int| bytes.len() - MAX_BYTES <= j < start ==> !is_char_boundary(bytes, j)
}

/// `String::len`: the length of the text in bytes, that is of its UTF-8
/// encoding.
#[verifier::external_body]
fn string_byte_len(text: &String) -> (len: usize)
    ensures
        len == encode_utf8(text@).len(),
{
    text.len()
}

/// Drops the oldest output so that at most [`MAX_BYTES`] bytes remain,
/// cutting only between characters: the shortest run of leading characters
/// that does it goes.
pub fn trim(log: &mut String)
    ensures
        encode_utf8(old(log)@).len() <= MAX_BYTES ==> final(log)@ == old(log)@,
        encode_utf8(old(log)@).len() > MAX_BYTES ==> exists|start: int| {
            &&& is_trim_start(encode_utf8(old(log)@), start)
            &&& encode_utf8(final(log)@) == encode_utf8(old(log)@).subrange(start, encode_utf8(old(log)@).len() as int)
        },
{
    let ghost bytes = encode_utf8(log@);
    proof {
        encode_utf8_valid_utf8(log@);
        is_char_boundary_start_end_of_seq(bytes);
    }
    let len: usize = string_byte_len(log);
    if len <= MAX_BYTES {
        return;
    }
    let mut start: usize = len - MAX_BYTES;
    while !log.as_str().is_char_boundary(start)
        invariant
            bytes == encode_utf8(log@),
            len == bytes.len(),
            is_char_boundary(bytes, len as int),
            len - MAX_BYTES <= start <= len,
            forall|j: int| len - MAX_BYTES <= j < start ==> !is_char_boundary(bytes, j),
        decreases len - start,
    {
        start = start + 1;
    }
    let (_, rest) = log.as_str().split_at(start);
    let trimmed = String::from_str(rest);
    proof {
        assert(rest.spec_bytes() =~= bytes.subrange(start as int, bytes.len() as int));
        assert(is_trim_start(bytes, start as int));
    }
    *log = trimmed;
}


proof fn lemma_line_start_ends_line(text: Seq<char>)
    ensures
        0 <= line_start(text) <= text.len(),
        line_start(text) > 0 ==> text[line_start(text) - 1] == '\n',
    decreases text.len(),
{
    if text.len() > 0 && text.last() != '\n' {
        lemma_line_start_ends_line(text.drop_last());
    }
}

/// Overwriting a character of the current line with one that is not a line
/// feed keeps where the line starts.
proof fn lemma_line_start_update(text: Seq<char>, i: int, c: char)
    requires
        line_start(text) <= i < text.len(),
        c != '\n',
    ensures
        line_start(text.update(i, c)) == line_start(text),
    decreases text.len(),
{
    lemma_line_start_ends_line(text);
    let updated = text.update(i, c);
    if i == text.len() - 1 {
        assert(updated.drop_last() =~= text.drop_last());
        assert(text.last() != '\n');
    } else {
        assert(updated.drop_last() =~= text.drop_last().update(i, c));
        assert(updated.last() == text.last());
        if text.last() != '\n' {
            lemma_line_start_update(text.drop_last(), i, c);
        }
    }
}

/// Dropping the first `k` characters moves the start of the current line back
/// by `k`, to the start of the text at the least.
proof fn lemma_line_start_skip(text: Seq<char>, k: int)
    requires
        0 <= k <= text.len(),
    ensures
        line_start(text.skip(k)) == (if line_start(text) >= k { line_start(text) - k } else { 0 }),
    decreases text.len(),
{
    lemma_line_start_ends_line(text);
    if k == text.len() {
        assert(text.skip(k).len() == 0);
    } else {
        assert(text.skip(k).drop_last() =~= text.drop_last().skip(k));
        assert(text.skip(k).last() == text.last());
        if text.last() != '\n' {
            lemma_line_start_skip(text.drop_last(), k);
        }
    }
}

/// Output keeps a well formed log well formed.
proof fn lemma_put_char_wf(log: (Seq<char>, int), c: char)
    requires
        log_wf(log),
    ensures
        log_wf(put_char(log, c)),
{
    let text = log.0;
    lemma_line_start_ends_line(text);
    if c == '\r' {
    } else if c == '\n' {
        assert(text.push('\n').drop_last() =~= text);
    } else if log.1 < text.len() {
        lemma_line_start_update(text, log.1, c);
    } else {
        assert(text.push(c).drop_last() =~= text);
    }
}

/// A log's text and cursor.
pub struct LogBuffer {
    text: String,
    cursor: usize,
}

impl View for LogBuffer {
    type V = (Seq<char>, int);

    closed spec fn view(&self) -> (Seq<char>, int) {
        (self.text@, self.cursor as int)
    }
}

impl LogBuffer {
    #[verifier::type_invariant]
    spec fn cursor_on_current_line(self) -> bool {
        log_wf((self.text@, self.cursor as int))
    }

    /// The view of a log is always well formed.
    pub fn is_well_formed(&self) -> (wf: bool)
        ensures
            wf,
            log_wf(self@),
    {
        proof {
            use_type_invariant(self);
        }
        true
    }

    /// An empty log.
    pub fn new() -> (log: Self)
        ensures
            log@ == (Seq::<char>::empty(), 0int),
    {
        LogBuffer { text: String::new(), cursor: 0 }
    }

    /// The text of the log.
    pub fn text(&self) -> (text: &String)
        ensures
            text@ == self@.0,
    {
        &self.text
    }

    /// Where, in characters, the next character of output lands.
    pub fn cursor(&self) -> (cursor: usize)
        ensures
            cursor == self@.1,
    {
        self.cursor
    }

    /// Takes a chunk of child output, as a terminal would: a carriage return
    /// moves back to the start of the current line, so espflash's progress
    /// bar overwrites itself instead of stacking up.
    pub fn put_output(&mut self, chunk: &str)
        ensures
            final(self)@ == put_chunk(old(self)@, chunk@),
    {
        proof {
            use_type_invariant(&*self);
        }
        let ghost start = self@;
        let mut buf: Vec<char> = Vec::new();
        let mut line: usize = 0;
        for c in it: self.text.as_str().chars()
            invariant
                buf@ == it.seq().take(it.index() as int),
                line == line_start(buf@),
                line <= buf@.len(),
        {
            let ghost before = buf@;
            buf.push(c);
            assert(buf@.drop_last() == before);
            if c == '\n' {
                line = buf.len();
            }
            assert(buf@ =~= it.seq().take(it.index() + 1));
        }
        assert(buf@ =~= start.0);
        let mut cursor: usize = self.cursor;
        for c in it: chunk.chars()
            invariant
                it.seq() == chunk@,
                (buf@, cursor as int) == put_chunk(start, it.seq().take(it.index() as int)),
                line == line_start(buf@),
                log_wf((buf@, cursor as int)),
        {
            let ghost before = (buf@, cursor as int);
            proof {
                lemma_put_char_wf(before, c);
                lemma_line_start_ends_line(buf@);
            }
            if c == '\r' {
                cursor = line;
            } else if c == '\n' {
                buf.push('\n');
                assert(buf@.drop_last() =~= before.0);
                line = buf.len();
                cursor = buf.len();
            } else if cursor < buf.len() {
                buf.set(cursor, c);
                proof {
                    lemma_line_start_update(before.0, before.1, c);
                }
                cursor = cursor + 1;
            } else {
                buf.push(c);
                assert(buf@.drop_last() =~= before.0);
                cursor = buf.len();
            }
            let ghost done = it.seq().take(it.index() + 1);
            assert(done.drop_last() =~= it.seq().take(it.index() as int));
            assert((buf@, cursor as int) == put_chunk(start, done));
        }
        assert(chunk@.take(chunk@.len() as int) =~= chunk@);
        *self = LogBuffer { text: string_from_chars(&buf), cursor };
    }

    /// Drops the oldest output so that at most [`MAX_BYTES`] bytes remain,
    /// as [`trim`] does, the cursor moving back with the text.
    fn trim_text(&mut self)
        ensures
            trimmed_ok(old(self)@, final(self)@),
    {
        proof {
            use_type_invariant(&*self);
        }
        let ghost old_log = self@;
        let mut text = self.text.clone();
        let old_chars: usize = text.as_str().unicode_len();
        trim(&mut text);
        let new_chars: usize = text.as_str().unicode_len();
        let ghost bytes = encode_utf8(old_log.0);
        proof {
            if bytes.len() > MAX_BYTES {
                let start = choose|start: int| {
                    &&& is_trim_start(bytes, start)
                    &&& encode_utf8(text@) == bytes.subrange(start, bytes.len() as int)
                };
                lemma_trim_keeps_suffix(old_log.0, start);
                encode_utf8_decode_utf8(text@);
                let prefix = decode_utf8(bytes.subrange(0, start));
                assert(old_log.0 == prefix + text@);
                assert(old_log.0.skip(prefix.len() as int) =~= text@);
            }
        }
        assert(new_chars <= old_chars);
        let dropped: usize = old_chars - new_chars;
        assert(old_log.0.skip(dropped as int) =~= text@);
        let cursor: usize = if self.cursor >= dropped { self.cursor - dropped } else { 0 };
        proof {
            lemma_line_start_skip(old_log.0, dropped as int);
        }
        *self = LogBuffer { text, cursor };
    }

    /// Appends a chunk of child output as [`LogBuffer::put_output`] does, then
    /// drops the oldest output so that at most [`MAX_BYTES`] bytes remain.
    pub fn append(&mut self, chunk: &str)
        ensures
            trimmed_ok(put_chunk(old(self)@, chunk@), final(self)@),
    {
        self.put_output(chunk);
        self.trim_text();
    }

    /// Replaces the whole log with `text`, the cursor at its end, and drops
    /// the oldest of it so that at most [`MAX_BYTES`] bytes remain.
    pub fn set(&mut self, text: String)
        ensures
            trimmed_ok((text@, text@.len() as int), final(self)@),
    {
        let ghost given = text@;
        let mut buf: Vec<char> = Vec::new();
        let mut line: usize = 0;
        for c in it: text.as_str().chars()
            invariant
                buf@ == it.seq().take(it.index() as int),
                line == line_start(buf@),
                line <= buf@.len(),
        {
            let ghost before = buf@;
            buf.push(c);
            assert(buf@.drop_last() == before);
            if c == '\n' {
                line = buf.len();
            }
            assert(buf@ =~= it.seq().take(it.index() + 1));
        }
        assert(buf@ =~= given);
        let cursor: usize = buf.len();
        *self = LogBuffer { text, cursor };
        self.trim_text();
    }

    /// Empties the log.
    pub fn clear(&mut self)
        ensures
            final(self)@ == (Seq::<char>::empty(), 0int),
    {
        *self = LogBuffer::new();
    }
}

/// Starts reading the flash unless a read is already in flight: the log is
/// emptied for the new read's output.
pub fn read_start(reading: &mut bool, log: &mut LogBuffer) -> (start: bool)
    ensures
        start == !*old(reading),
        *final(reading),
        start ==> final(log)@ == (Seq::<char>::empty(), 0int),
        !start ==> final(log)@ == old(log)@,
{
    if *reading {
        return false;
    }
    *reading = true;
    log.clear();
    true
}

/// Ends a read: its error, if any, goes on a line of its own at the end of
/// the log.
pub fn read_finish(reading: &mut bool, log: &mut LogBuffer, error: Option<&str>)
    ensures
        !*final(reading),
        match error {
            Some(e) => trimmed_ok(put_chunk(old(log)@, seq!['\n'] + e@ + seq!['\n']), final(log)@),
            None => final(log)@ == old(log)@,
        },
{
    if let Some(e) = error {
        let mut chunk = String::from_str("\n");
        chunk.append(e);
        chunk.append("\n");
        proof {
            reveal_strlit("\n");
            assert(chunk@ =~= seq!['\n'] + e@ + seq!['\n']);
        }
        log.append(chunk.as_str());
    }
    *reading = false;
}

/// Trimming keeps the newest output: what remains is a suffix of the text,
/// at most [`MAX_BYTES`] long when encoded.
pub proof fn lemma_trim_keeps_suffix(text: Seq<char>, start: int)
    requires
        is_trim_start(encode_utf8(text), start),
    ensures
        ({
            let bytes = encode_utf8(text);
            let kept = decode_utf8(bytes.subrange(start, bytes.len() as int));
            &&& encode_utf8(kept) == bytes.subrange(start, bytes.len() as int)
            &&& encode_utf8(kept).len() <= MAX_BYTES
            &&& text == decode_utf8(bytes.subrange(0, start)) + kept
        }),
{
    let bytes = encode_utf8(text);
    encode_utf8_valid_utf8(text);
    encode_utf8_decode_utf8(text);
    decode_utf8_split(bytes, start);
    valid_utf8_split(bytes, start);
    decode_utf8_encode_utf8(bytes.subrange(start, bytes.len() as int));
}

/// Output keeps a well formed log well formed.
pub proof fn lemma_put_chunk_wf(log: (Seq<char>, int), chunk: Seq<char>)
    requires
        log_wf(log),
    ensures
        log_wf(put_chunk(log, chunk)),
    decreases chunk.len(),
{
    if chunk.len() > 0 {
        lemma_put_chunk_wf(log, chunk.drop_last());
        lemma_put_char_wf(put_chunk(log, chunk.drop_last()), chunk.last());
    }
}

/// Output never deletes text: a carriage return only moves the cursor, and
/// every character of the log stays until it is overwritten.
pub proof fn lemma_output_keeps_length(log: (Seq<char>, int), chunk: Seq<char>)
    requires
        log_wf(log),
    ensures
        put_chunk(log, chunk).0.len() >= log.0.len(),
    decreases chunk.len(),
{
    if chunk.len() > 0 {
        lemma_output_keeps_length(log, chunk.drop_last());
        lemma_put_chunk_wf(log, chunk.drop_last());
        lemma_line_start_ends_line(put_chunk(log, chunk.drop_last()).0);
    }
}

/// A carriage return followed by a line feed keeps the current line and
/// starts a new one after it.
pub proof fn lemma_cr_lf_keeps_line(log: (Seq<char>, int))
    ensures
        put_chunk(log, seq!['\r', '\n']) == (log.0.push('\n'), (log.0.len() + 1) as int),
{
    assert(seq!['\r', '\n'].drop_last() =~= seq!['\r']);
    assert(seq!['\r'].drop_last() =~= Seq::<char>::empty());
    assert(put_chunk(log, Seq::<char>::empty()) == log);
    assert(put_chunk(log, seq!['\r']) == put_char(log, '\r'));
    assert(put_chunk(log, seq!['\r', '\n']) == put_char(put_chunk(log, seq!['\r']), '\n'));
}

/// Output without a carriage return, with the cursor at the end of the log,
/// is appended as it is.
pub proof fn lemma_plain_output_appends(text: Seq<char>, chunk: Seq<char>)
    requires
        forall|i: int| 0 <= i < chunk.len() ==> chunk[i] != '\r',
    ensures
        put_chunk((text, text.len() as int), chunk) == (text + chunk, (text.len() + chunk.len()) as int),
    decreases chunk.len(),
{
    if chunk.len() > 0 {
        lemma_plain_output_appends(text, chunk.drop_last());
        assert(text + chunk =~= (text + chunk.drop_last()).push(chunk.last()));
    } else {
        assert(text + chunk =~= text);
    }
}

/// The text of a line overwritten from position `at` by `s`.
pub open spec fn overwrite(text: Seq<char>, at: int, s: Seq<char>) -> Seq<char> {
    let end = if at + s.len() < text.len() { at + s.len() } else { text.len() as int };
    text.take(at) + s + text.skip(end)
}

/// A carriage return then text without control characters overwrites the
/// current line from its start, as a progress bar redrawn in place.
pub proof fn lemma_redraw_overwrites_line(log: (Seq<char>, int), s: Seq<char>)
    requires
        log_wf(log),
        forall|i: int| 0 <= i < s.len() ==> s[i] != '\r' && s[i] != '\n',
    ensures
        put_chunk(log, seq!['\r'] + s) == (
            overwrite(log.0, line_start(log.0), s),
            line_start(log.0) + s.len(),
        ),
    decreases s.len(),
{
    let text = log.0;
    let ls = line_start(text);
    lemma_line_start_ends_line(text);
    if s.len() == 0 {
        assert(seq!['\r'] + s =~= seq!['\r']);
        assert(seq!['\r'].drop_last() =~= Seq::<char>::empty());
        assert(put_chunk(log, Seq::<char>::empty()) == log);
        assert(put_chunk(log, seq!['\r']) == put_char(log, '\r'));
        assert(overwrite(text, ls, s) =~= text);
    } else {
        let prev = s.drop_last();
        lemma_redraw_overwrites_line(log, prev);
        let all = seq!['\r'] + s;
        assert(all.drop_last() =~= seq!['\r'] + prev);
        assert(all.last() == s.last());
        let mid = overwrite(text, ls, prev);
        let c = s.last();
        assert(put_chunk(log, all) == put_char(put_chunk(log, all.drop_last()), c));
        assert(put_chunk(log, all.drop_last()) == (mid, ls + prev.len()));
        assert(c != '\r' && c != '\n');
        if ls + prev.len() < text.len() {
            assert(mid.len() == text.len());
            assert(mid.update(ls + prev.len(), c) =~= overwrite(text, ls, s));
        } else {
            assert(mid.len() == ls + prev.len());
            assert(mid.push(c) =~= overwrite(text, ls, s));
        }
    }
}

} // verus!
