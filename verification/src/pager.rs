use vstd::prelude::*;
use vstd::string::StringSliceAdditionalSpecFns;
use vstd::utf8::{encode_utf8, valid_utf8};
use crate::text::{lossy_utf8, utf8_lossy};
use crate::text::append_bytes;

verus! {

/// How many lines fill a screen.
pub const LINES_PER_SCREEN: usize = 25;

/// The newline byte.
pub const NEWLINE: u8 = 10;

/// The key that scrolls to the next screen.
pub const SPACE: u8 = 32;

/// The index of the first newline in `s`, or its length when there is none.
pub open spec fn find_newline(s: Seq<u8>) -> nat
    decreases s.len(),
{
    if s.len() == 0 {
        0
    } else if s[0] == NEWLINE {
        0
    } else {
        1 + find_newline(s.drop_first())
    }
}

/// The lines of `s`, as `split('\n')` yields them: the text between the
/// newlines, so one line more than there are newlines.
pub open spec fn split_lines(s: Seq<u8>) -> Seq<Seq<u8>>
    decreases s.len(),
{
    let k = find_newline(s);
    if k < s.len() {
        seq![s.take(k as int)] + split_lines(s.skip(k + 1int))
    } else {
        seq![s]
    }
}

/// `s` after its first line and the newline that ends it.
pub open spec fn after_first_line(s: Seq<u8>) -> Seq<u8> {
    s.skip(find_newline(s) + 1int)
}

/// `s` after its first `k` lines, each with the newline that ends it.
pub open spec fn after_lines(s: Seq<u8>, k: nat) -> Seq<u8>
    decreases k,
{
    if k == 0 {
        s
    } else {
        after_first_line(after_lines(s, (k - 1) as nat))
    }
}

/// How many more lines fit on the screen after `printed` lines.
pub open spec fn room_left(printed: nat) -> nat {
    if printed >= LINES_PER_SCREEN {
        0
    } else {
        (LINES_PER_SCREEN - printed) as nat
    }
}

/// The bytes of each line.
pub open spec fn lines_of(v: Seq<Vec<u8>>) -> Seq<Seq<u8>> {
    v.map_values(|l: Vec<u8>| l@)
}

pub proof fn lemma_find_newline(s: Seq<u8>)
    ensures
        find_newline(s) <= s.len(),
        find_newline(s) < s.len() ==> s[find_newline(s) as int] == NEWLINE,
        forall|j: int| 0 <= j < find_newline(s) ==> #[trigger] s[j] != NEWLINE,
    decreases s.len(),
{
    if s.len() > 0 && s[0] != NEWLINE {
        lemma_find_newline(s.drop_first());
        assert forall|j: int| 0 <= j < find_newline(s) implies #[trigger] s[j] != NEWLINE by {
            if j > 0 {
                assert(s[j] == s.drop_first()[j - 1]);
            }
        }
    }
}

/// Paging loses no line: the first `k` lines of a text, followed by the
/// lines of what is left after them, are the lines of the text. So the lines
/// shown and the lines kept back make up the text.
pub proof fn lemma_paging_keeps_every_line(s: Seq<u8>, k: nat)
    requires
        k < split_lines(s).len(),
    ensures
        split_lines(s) == split_lines(s).take(k as int) + split_lines(after_lines(s, k)),
    decreases k,
{
    if k == 0 {
        assert(split_lines(s).take(0) =~= Seq::<Seq<u8>>::empty());
        assert(split_lines(s) =~= Seq::<Seq<u8>>::empty() + split_lines(s));
    } else {
        let j = (k - 1) as nat;
        lemma_paging_keeps_every_line(s, j);
        let x = after_lines(s, j);
        let f = find_newline(x);
        if f >= x.len() {
            assert(split_lines(x) == seq![x]);
            assert(split_lines(s).len() == j + 1);
        }
        assert(f < x.len());
        assert(split_lines(x) == seq![x.take(f as int)] + split_lines(x.skip(f + 1int)));
        assert(after_lines(s, k) == x.skip(f + 1int));
        assert(split_lines(s)[j as int] == x.take(f as int));
        assert(split_lines(s).take(k as int) =~= split_lines(s).take(j as int).push(
            x.take(f as int),
        ));
        assert(split_lines(s) =~= split_lines(s).take(k as int) + split_lines(after_lines(s, k)));
    }
}

/// The first newline at or after `from` in `s`, or the length of `s`.
fn scan_newline(s: &[u8], from: usize) -> (k: usize)
    requires
        from <= s@.len(),
    ensures
        k == from + find_newline(s@.skip(from as int)),
        k <= s@.len(),
{
    let mut i = from;
    while i < s.len() && s[i] != NEWLINE
        invariant
            from <= i <= s@.len(),
            find_newline(s@.skip(from as int)) == (i - from) + find_newline(s@.skip(i as int)),
        decreases s@.len() - i,
    {
        assert(s@.skip(i as int).drop_first() =~= s@.skip(i + 1));
        i = i + 1;
    }
    if i < s.len() {
        assert(s@.skip(i as int)[0] == s@[i as int]);
    }
    i
}

/// The bytes of `s` from `from` up to `to`.
fn copy_range(s: &[u8], from: usize, to: usize) -> (v: Vec<u8>)
    requires
        from <= to <= s@.len(),
    ensures
        v@ == s@.subrange(from as int, to as int),
{
    let mut v: Vec<u8> = Vec::new();
    let mut i = from;
    while i < to
        invariant
            from <= i <= to <= s@.len(),
            v@ == s@.subrange(from as int, i as int),
        decreases to - i,
    {
        v.push(s[i]);
        i = i + 1;
        assert(v@ =~= s@.subrange(from as int, i as int));
    }
    v
}

/// Takes the lines of `data` one by one, at most `room` of them. Returns them,
/// and where the rest of `data` starts when `room` ran out before the lines did.
fn take_lines(data: &[u8], room: usize) -> (r: (Vec<Vec<u8>>, Option<usize>))
    ensures
        ({
            let lines = split_lines(data@);
            if room < lines.len() {
                &&& lines_of(r.0@) == lines.take(room as int)
                &&& r.1 is Some
                &&& r.1->0 <= data@.len()
                &&& data@.skip(r.1->0 as int) == after_lines(data@, room as nat)
            } else {
                &&& lines_of(r.0@) == lines
                &&& r.1 is None
            }
        }),
{
    let ghost b = data@;
    let mut shown: Vec<Vec<u8>> = Vec::new();
    let mut pos: usize = 0;
    assert(b.skip(0) =~= b);
    loop
        invariant
            b == data@,
            pos <= b.len(),
            shown@.len() <= room,
            b.skip(pos as int) == after_lines(b, shown@.len() as nat),
            split_lines(b) == lines_of(shown@) + split_lines(b.skip(pos as int)),
        decreases b.len() - pos, room - shown@.len(),
    {
        let ghost x = b.skip(pos as int);
        if shown.len() == room {
            proof {
                assert(split_lines(x).len() >= 1);
                assert(lines_of(shown@) =~= split_lines(b).take(room as int));
            }
            return (shown, Some(pos));
        }
        let nl = scan_newline(data, pos);
        let line = copy_range(data, pos, nl);
        proof {
            lemma_find_newline(x);
            assert(line@ =~= x.take(find_newline(x) as int));
        }
        let ghost before = lines_of(shown@);
        shown.push(line);
        assert(lines_of(shown@) =~= before.push(line@));
        if nl == data.len() {
            proof {
                assert(split_lines(x) == seq![x]);
                assert(x =~= line@);
                assert(split_lines(b) =~= lines_of(shown@));
            }
            return (shown, None);
        }
        proof {
            assert(x.skip(find_newline(x) + 1int) =~= b.skip(nl + 1));
            assert(split_lines(x) == seq![x.take(find_newline(x) as int)] + split_lines(
                x.skip(find_newline(x) + 1int),
            ));
            assert(split_lines(b) =~= lines_of(shown@) + split_lines(b.skip(nl + 1)));
            assert(after_lines(b, shown@.len() as nat) == after_first_line(x));
        }
        pos = nl + 1;
    }
}

/// What paging does with the text `all` after `printed` lines on a screen
/// that was `waiting` or not: the lines shown, whether the prompt is shown,
/// the new count and waiting flag, and the text kept back. As many lines as
/// fit are shown; when they do not all fit, the screen waits and the text
/// after the lines shown is kept.
pub open spec fn paged(
    all: Seq<u8>,
    printed: nat,
    waiting: bool,
    shown: Seq<Seq<u8>>,
    prompt: bool,
    printed_after: nat,
    waiting_after: bool,
    kept: Seq<u8>,
) -> bool {
    let lines = split_lines(all);
    let room = room_left(printed);
    if room < lines.len() {
        &&& shown == lines.take(room as int)
        &&& prompt
        &&& waiting_after
        &&& printed_after == printed + room
        &&& kept == after_lines(all, room)
    } else {
        &&& shown == lines
        &&& !prompt
        &&& waiting_after == waiting
        &&& printed_after == printed + lines.len()
        &&& kept == Seq::<u8>::empty()
    }
}

/// The count at which a full screen stops: 25, or the count itself when it
/// was already past that.
pub open spec fn stop_count(printed: nat) -> nat {
    if printed >= LINES_PER_SCREEN {
        printed
    } else {
        LINES_PER_SCREEN as nat
    }
}

/// Paging that, when the screen fills, keeps back the lines from index
/// `stop_count(printed)` on, rather than those not shown: after a screen that
/// already held lines, the lines between are dropped. Otherwise as `paged`.
pub open spec fn paged_by_count(
    all: Seq<u8>,
    printed: nat,
    waiting: bool,
    shown: Seq<Seq<u8>>,
    prompt: bool,
    printed_after: nat,
    waiting_after: bool,
    kept: Seq<u8>,
) -> bool {
    let lines = split_lines(all);
    let room = room_left(printed);
    if room < lines.len() {
        &&& shown == lines.take(room as int)
        &&& prompt
        &&& waiting_after
        &&& printed_after == printed + room
        &&& kept == (if stop_count(printed) < lines.len() {
            after_lines(all, stop_count(printed))
        } else {
            Seq::<u8>::empty()
        })
    } else {
        paged(all, printed, waiting, shown, prompt, printed_after, waiting_after, kept)
    }
}

/// Keeping the lines from the count on can only slice the lines when the
/// count does not pass their number.
pub open spec fn by_count_in_range(all: Seq<u8>, printed: nat) -> bool {
    room_left(printed) < split_lines(all).len() ==> stop_count(printed) <= split_lines(all).len()
}

/// Shows as many lines of the text in `buffer` as fit on the screen after
/// `lines_printed` lines. When they all fit, the buffer is emptied and the
/// count grows by the lines shown. Otherwise the screen is full: the caller
/// shows the prompt, `waiting` is set, and the buffer keeps the lines not yet
/// shown. Returns the lines to show and whether to show the prompt.
pub fn page_text(buffer: &mut Vec<u8>, lines_printed: &mut usize, waiting: &mut bool) -> (r: (
    Vec<Vec<u8>>,
    bool,
))
    ensures
        paged(
            old(buffer)@,
            *old(lines_printed) as nat,
            *old(waiting),
            lines_of(r.0@),
            r.1,
            *final(lines_printed) as nat,
            *final(waiting),
            final(buffer)@,
        ),
{
    let room: usize = if *lines_printed >= LINES_PER_SCREEN {
        0
    } else {
        LINES_PER_SCREEN - *lines_printed
    };
    let (shown, rest) = take_lines(buffer.as_slice(), room);
    match rest {
        Some(pos) => {
            let remaining = copy_range(buffer.as_slice(), pos, buffer.len());
            assert(remaining@ =~= old(buffer)@.skip(pos as int));
            *buffer = remaining;
            *waiting = true;
            *lines_printed = *lines_printed + room;
            (shown, true)
        },
        None => {
            proof {
                assert(lines_of(shown@).len() == shown@.len());
            }
            *lines_printed = *lines_printed + shown.len();
            buffer.clear();
            (shown, false)
        },
    }
}

/// Shows as many lines of the text of `buffer` (invalid UTF-8 replaced) as fit
/// on the screen after `lines_printed` lines, as `page_text` does; what is
/// kept back is kept as that text.
pub fn print_buffered(buffer: &mut Vec<u8>, lines_printed: &mut usize, waiting: &mut bool) -> (r: (
    Vec<Vec<u8>>,
    bool,
))
    ensures
        paged(
            encode_utf8(lossy_utf8(old(buffer)@)),
            *old(lines_printed) as nat,
            *old(waiting),
            lines_of(r.0@),
            r.1,
            *final(lines_printed) as nat,
            *final(waiting),
            final(buffer)@,
        ),
        valid_utf8(old(buffer)@) ==> paged(
            old(buffer)@,
            *old(lines_printed) as nat,
            *old(waiting),
            lines_of(r.0@),
            r.1,
            *final(lines_printed) as nat,
            *final(waiting),
            final(buffer)@,
        ),
{
    let text = utf8_lossy(buffer.as_slice());
    proof {
        broadcast use vstd::utf8::decode_utf8_encode_utf8;

        if valid_utf8(buffer@) {
            assert(encode_utf8(lossy_utf8(buffer@)) == buffer@);
        }
    }
    let mut bytes = vstd::slice::slice_to_vec(text.as_str().as_bytes());
    let r = page_text(&mut bytes, lines_printed, waiting);
    *buffer = bytes;
    r
}

/// Whether `print_buffered_by_count` can keep its lines: when the screen
/// fills, the count it slices from does not pass the number of lines of the
/// text of `buffer`.
pub fn by_count_is_safe(buffer: &Vec<u8>, lines_printed: usize) -> (r: bool)
    ensures
        r == by_count_in_range(encode_utf8(lossy_utf8(buffer@)), lines_printed as nat),
{
    let text = utf8_lossy(buffer.as_slice());
    let bytes = text.as_str().as_bytes();
    let room: usize = if lines_printed >= LINES_PER_SCREEN {
        0
    } else {
        LINES_PER_SCREEN - lines_printed
    };
    let stop: usize = if lines_printed >= LINES_PER_SCREEN {
        lines_printed
    } else {
        LINES_PER_SCREEN
    };
    let (_, fill) = take_lines(bytes, room);
    if fill.is_none() {
        return true;
    }
    let (_, more) = take_lines(bytes, stop - 1);
    more.is_some()
}

/// Shows as many lines of the text of `buffer` (invalid UTF-8 replaced) as fit
/// on the screen after `lines_printed` lines; when the screen fills, keeps
/// back the lines from index `stop_count(lines_printed)` on, so that after a
/// screen that already held lines, the lines between are dropped. Slicing
/// past the last line panics, so that is left out.
pub fn print_buffered_by_count(buffer: &mut Vec<u8>, lines_printed: &mut usize, waiting: &mut bool) -> (r: (
    Vec<Vec<u8>>,
    bool,
))
    requires
        by_count_in_range(encode_utf8(lossy_utf8(old(buffer)@)), *old(lines_printed) as nat),
    ensures
        paged_by_count(
            encode_utf8(lossy_utf8(old(buffer)@)),
            *old(lines_printed) as nat,
            *old(waiting),
            lines_of(r.0@),
            r.1,
            *final(lines_printed) as nat,
            *final(waiting),
            final(buffer)@,
        ),
        valid_utf8(old(buffer)@) ==> paged_by_count(
            old(buffer)@,
            *old(lines_printed) as nat,
            *old(waiting),
            lines_of(r.0@),
            r.1,
            *final(lines_printed) as nat,
            *final(waiting),
            final(buffer)@,
        ),
{
    let text = utf8_lossy(buffer.as_slice());
    proof {
        broadcast use vstd::utf8::decode_utf8_encode_utf8;

        if valid_utf8(buffer@) {
            assert(encode_utf8(lossy_utf8(buffer@)) == buffer@);
        }
    }
    let bytes = text.as_str().as_bytes();
    let room: usize = if *lines_printed >= LINES_PER_SCREEN {
        0
    } else {
        LINES_PER_SCREEN - *lines_printed
    };
    let (shown, rest) = take_lines(bytes, room);
    match rest {
        Some(_) => {
            let stop: usize = if *lines_printed >= LINES_PER_SCREEN {
                *lines_printed
            } else {
                LINES_PER_SCREEN
            };
            let (_, after) = take_lines(bytes, stop);
            match after {
                Some(pos) => {
                    *buffer = copy_range(bytes, pos, bytes.len());
                    assert(buffer@ =~= bytes@.skip(pos as int));
                },
                None => {
                    buffer.clear();
                },
            }
            *waiting = true;
            *lines_printed = stop;
            (shown, true)
        },
        None => {
            proof {
                assert(lines_of(shown@).len() == shown@.len());
            }
            *lines_printed = *lines_printed + shown.len();
            buffer.clear();
            (shown, false)
        },
    }
}

/// `print_buffered_by_count` where it can keep its lines; otherwise `None`,
/// with the buffer, the count and `waiting` left as they were.
pub fn try_print_buffered_by_count(
    buffer: &mut Vec<u8>,
    lines_printed: &mut usize,
    waiting: &mut bool,
) -> (r: Option<(Vec<Vec<u8>>, bool)>)
    ensures
        r is None <==> !by_count_in_range(
            encode_utf8(lossy_utf8(old(buffer)@)),
            *old(lines_printed) as nat,
        ),
        r is None ==> {
            &&& final(buffer)@ == old(buffer)@
            &&& *final(lines_printed) == *old(lines_printed)
            &&& *final(waiting) == *old(waiting)
        },
        r matches Some(p) ==> paged_by_count(
            encode_utf8(lossy_utf8(old(buffer)@)),
            *old(lines_printed) as nat,
            *old(waiting),
            lines_of(p.0@),
            p.1,
            *final(lines_printed) as nat,
            *final(waiting),
            final(buffer)@,
        ),
        r matches Some(p) ==> (valid_utf8(old(buffer)@) ==> paged_by_count(
            old(buffer)@,
            *old(lines_printed) as nat,
            *old(waiting),
            lines_of(p.0@),
            p.1,
            *final(lines_printed) as nat,
            *final(waiting),
            final(buffer)@,
        )),
{
    if by_count_is_safe(buffer, *lines_printed) {
        Some(print_buffered_by_count(buffer, lines_printed, waiting))
    } else {
        None
    }
}

/// Shows the lines of the text of `data` (invalid UTF-8 replaced) while they
/// fit on the screen after
/// `lines_printed` lines, and drops the rest. Nothing is shown while the
/// screen waits for a key. When the screen fills, `waiting` is set and the
/// caller shows the prompt. Returns the lines to show and whether to show
/// the prompt.
pub fn process_output(data: &[u8], lines_printed: &mut usize, waiting: &mut bool) -> (r: (
    Vec<Vec<u8>>,
    bool,
))
    ensures
        ({
            let lines = split_lines(encode_utf8(lossy_utf8(data@)));
            let room = room_left(*old(lines_printed) as nat);
            if *old(waiting) {
                &&& r.0@.len() == 0
                &&& !r.1
                &&& *final(waiting)
                &&& *final(lines_printed) == *old(lines_printed)
            } else if room < lines.len() {
                &&& lines_of(r.0@) == lines.take(room as int)
                &&& r.1
                &&& *final(waiting)
                &&& *final(lines_printed) == *old(lines_printed) + room
            } else {
                &&& lines_of(r.0@) == lines
                &&& !r.1
                &&& !*final(waiting)
                &&& *final(lines_printed) == *old(lines_printed) + lines.len()
            }
        }),
        valid_utf8(data@) && !*old(waiting) ==> ({
            let lines = split_lines(data@);
            let room = room_left(*old(lines_printed) as nat);
            lines_of(r.0@) == (if room < lines.len() {
                lines.take(room as int)
            } else {
                lines
            })
        }),
{
    if *waiting {
        return (Vec::new(), false);
    }
    let room: usize = if *lines_printed >= LINES_PER_SCREEN {
        0
    } else {
        LINES_PER_SCREEN - *lines_printed
    };
    let text = utf8_lossy(data);
    proof {
        broadcast use vstd::utf8::decode_utf8_encode_utf8;

        if valid_utf8(data@) {
            assert(encode_utf8(lossy_utf8(data@)) == data@);
        }
    }
    let (shown, rest) = take_lines(text.as_str().as_bytes(), room);
    match rest {
        Some(_) => {
            *waiting = true;
            *lines_printed = *lines_printed + room;
            (shown, true)
        },
        None => {
            proof {
                assert(lines_of(shown@).len() == shown@.len());
            }
            *lines_printed = *lines_printed + shown.len();
            (shown, false)
        },
    }
}

/// Reacts to a key read from the user: a space while the screen waits
/// starts a new screen. `key` is `None` when nothing could be read.
pub fn check_user_input(key: Option<u8>, waiting: &mut bool, lines_printed: &mut usize)
    ensures
        key == Some(SPACE) ==> !*final(waiting) && *final(lines_printed) == 0,
        key != Some(SPACE) ==> *final(waiting) == *old(waiting) && *final(lines_printed) == *old(
            lines_printed,
        ),
{
    match key {
        Some(k) => {
            if k == SPACE {
                *waiting = false;
                *lines_printed = 0;
            }
        },
        None => {},
    }
}

/// A pager for an HTTP body that arrives in pieces: it shows a screen of
/// lines at a time, and keeps what it cannot show yet until the user
/// presses space.
pub struct Pager {
    buffer: Vec<u8>,
    lines_printed: usize,
    waiting: bool,
}

/// The state of a pager: text not shown yet, lines on the screen, and whether
/// it waits for a key.
pub struct PagerState {
    pub buffer: Seq<u8>,
    pub lines_printed: nat,
    pub waiting: bool,
}

impl View for Pager {
    type V = PagerState;

    closed spec fn view(&self) -> PagerState {
        PagerState {
            buffer: self.buffer@,
            lines_printed: self.lines_printed as nat,
            waiting: self.waiting,
        }
    }
}

impl Pager {
    /// A pager with an empty screen.
    pub fn new() -> (p: Self)
        ensures
            p@ == (PagerState { buffer: Seq::empty(), lines_printed: 0, waiting: false }),
    {
        Pager { buffer: Vec::new(), lines_printed: 0, waiting: false }
    }

    /// Takes the next piece of the body. While the screen waits for a key the
    /// piece is only kept; otherwise what fits is shown at once. Returns the
    /// lines to show and whether to show the prompt.
    pub fn feed(&mut self, data: &[u8]) -> (r: (Vec<Vec<u8>>, bool))
        ensures
            old(self)@.lines_printed <= LINES_PER_SCREEN ==> final(self)@.lines_printed
                <= LINES_PER_SCREEN,
            old(self)@.waiting ==> r.0@.len() == 0 && !r.1 && final(self)@ == (PagerState {
                buffer: old(self)@.buffer + data@,
                ..old(self)@
            }),
            !old(self)@.waiting ==> ({
                let all = encode_utf8(lossy_utf8(old(self)@.buffer + data@));
                let lines = split_lines(all);
                let room = room_left(old(self)@.lines_printed);
                if room < lines.len() {
                    &&& lines_of(r.0@) == lines.take(room as int)
                    &&& r.1
                    &&& final(self)@ == (PagerState {
                        buffer: after_lines(all, room),
                        lines_printed: old(self)@.lines_printed + room,
                        waiting: true,
                    })
                } else {
                    &&& lines_of(r.0@) == lines
                    &&& !r.1
                    &&& final(self)@ == (PagerState {
                        buffer: Seq::empty(),
                        lines_printed: old(self)@.lines_printed + lines.len(),
                        waiting: false,
                    })
                }
            }),
    {
        append_bytes(&mut self.buffer, data);
        if self.waiting {
            return (Vec::new(), false);
        }
        print_buffered(&mut self.buffer, &mut self.lines_printed, &mut self.waiting)
    }

    /// Takes a key from the user: a space while the screen waits starts a new
    /// screen and shows what fits of the kept text. Returns the lines to show
    /// and whether to show the prompt again.
    pub fn press_key(&mut self, key: u8) -> (r: (Vec<Vec<u8>>, bool))
        ensures
            old(self)@.lines_printed <= LINES_PER_SCREEN ==> final(self)@.lines_printed
                <= LINES_PER_SCREEN,
            !(old(self)@.waiting && key == SPACE) ==> r.0@.len() == 0 && !r.1 && final(self)@
                == old(self)@,
            old(self)@.waiting && key == SPACE ==> ({
                let all = encode_utf8(lossy_utf8(old(self)@.buffer));
                let lines = split_lines(all);
                if LINES_PER_SCREEN < lines.len() {
                    &&& lines_of(r.0@) == lines.take(LINES_PER_SCREEN as int)
                    &&& r.1
                    &&& final(self)@ == (PagerState {
                        buffer: after_lines(all, LINES_PER_SCREEN as nat),
                        lines_printed: LINES_PER_SCREEN as nat,
                        waiting: true,
                    })
                } else {
                    &&& lines_of(r.0@) == lines
                    &&& !r.1
                    &&& final(self)@ == (PagerState {
                        buffer: Seq::empty(),
                        lines_printed: lines.len(),
                        waiting: false,
                    })
                }
            }),
    {
        if !(self.waiting && key == SPACE) {
            return (Vec::new(), false);
        }
        self.waiting = false;
        self.lines_printed = 0;
        print_buffered(&mut self.buffer, &mut self.lines_printed, &mut self.waiting)
    }

    /// Whether the screen is full and waits for a key.
    pub fn is_waiting(&self) -> (w: bool)
        ensures
            w == self@.waiting,
    {
        self.waiting
    }

    /// The text not shown yet, which the caller writes out at the end.
    pub fn into_rest(self) -> (rest: Vec<u8>)
        ensures
            rest@ == self@.buffer,
    {
        self.buffer
    }
}

} // verus!
