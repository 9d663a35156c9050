use vstd::prelude::*;
use vstd::utf8::*;

verus! {

/// Where the line that starts at `pos` ends: just after its newline, or at
/// the end of the data.
pub open spec fn line_end(data: Seq<u8>, pos: int) -> int
    decreases data.len() - pos,
{
    if pos >= data.len() {
        data.len() as int
    } else if data[pos] == 10u8 {
        pos + 1
    } else {
        line_end(data, pos + 1)
    }
}

/// The bytes that `String::pop` leaves of a valid UTF-8 string: all but its
/// last character.
pub open spec fn pop_char(c: Seq<u8>) -> Seq<u8> {
    if c.len() == 0 {
        c
    } else {
        c.take(c.len() - length_of_last_scalar(c))
    }
}

/// What reading a line at `pos` gives, as `BufRead::read_line` followed by
/// `String::pop` does: `None` when the line is not valid UTF-8, else the line
/// without its last character (its newline, when it has one) and the position
/// after it. At the end of the data the line is empty.
pub open spec fn spec_read_line(data: Seq<u8>, pos: int) -> Option<(Seq<u8>, int)> {
    if pos >= data.len() {
        Some((Seq::empty(), pos))
    } else {
        let e = line_end(data, pos);
        let c = data.subrange(pos, e);
        if valid_utf8(c) {
            Some((pop_char(c), e))
        } else {
            None
        }
    }
}

/// What reading exactly `n` bytes at `pos` gives, as `Read::read_exact` does.
pub open spec fn spec_read_bytes(data: Seq<u8>, pos: int, n: int) -> Option<(Seq<u8>, int)> {
    if n == 0 {
        Some((Seq::empty(), pos))
    } else if 0 <= pos && pos + n <= data.len() {
        Some((data.subrange(pos, pos + n), pos + n))
    } else {
        None
    }
}

/// A reader over the bytes of a file held in memory: lines, byte runs and
/// skips, from the front.
pub struct MemoryFileReader {
    pub data: Vec<u8>,
    pub pos: usize,
}

pub proof fn lemma_line_end_bounds(data: Seq<u8>, pos: int)
    requires
        0 <= pos,
    ensures
        pos < data.len() ==> pos < line_end(data, pos) <= data.len(),
        pos >= data.len() ==> line_end(data, pos) == data.len(),
        forall|i: int| pos <= i < line_end(data, pos) - 1 ==> data[i] != 10u8,
        pos < data.len() && line_end(data, pos) < data.len() + 1 && data[line_end(data, pos) - 1]
            != 10u8 ==> line_end(data, pos) == data.len(),
    decreases data.len() - pos,
{
    if pos < data.len() && data[pos] != 10u8 {
        lemma_line_end_bounds(data, pos + 1);
    }
}

fn last_scalar_len(c: &Vec<u8>) -> (n: usize)
    requires
        c@.len() > 0,
        valid_utf8(c@),
    ensures
        n == length_of_last_scalar(c@),
{
    let l = c.len();
    if !(c[l - 1] >= 128 && c[l - 1] < 192) {
        1
    } else if !(c[l - 2] >= 128 && c[l - 2] < 192) {
        2
    } else if !(c[l - 3] >= 128 && c[l - 3] < 192) {
        3
    } else {
        4
    }
}

impl MemoryFileReader {
    pub fn new(data: Vec<u8>) -> (r: MemoryFileReader)
        ensures
            r.data == data,
            r.pos == 0,
    {
        MemoryFileReader { data, pos: 0 }
    }

    /// Reads one line; an error when it is not valid UTF-8.
    pub fn line(&mut self) -> (r: Result<Vec<u8>, ()>)
        ensures
            final(self).data == old(self).data,
            match spec_read_line(old(self).data@, old(self).pos as int) {
                Some((l, p)) => r matches Ok(v) && v@ == l && final(self).pos == p,
                None => r is Err,
            },
    {
        let len = self.data.len();
        if self.pos >= len {
            return Ok(Vec::new());
        }
        let start = self.pos;
        let mut e = start;
        proof {
            lemma_line_end_bounds(self.data@, start as int);
        }
        while e < len && self.data[e] != 10
            invariant
                start <= e <= len,
                len == self.data@.len(),
                start < len,
                line_end(self.data@, start as int) == line_end(self.data@, e as int),
            decreases len - e,
        {
            e = e + 1;
        }
        if e < len {
            e = e + 1;
        }
        proof {
            assert(e == line_end(self.data@, start as int));
        }
        let mut chunk: Vec<u8> = Vec::new();
        let mut i = start;
        while i < e
            invariant
                start <= i <= e <= len,
                len == self.data@.len(),
                chunk@ == self.data@.subrange(start as int, i as int),
            decreases e - i,
        {
            chunk.push(self.data[i]);
            proof {
                assert(self.data@.subrange(start as int, i + 1) =~= self.data@.subrange(start as int, i as int).push(self.data@[i as int]));
            }
            i = i + 1;
        }
        self.pos = e;
        let ghost c = chunk@;
        let check = chunk.clone();
        proof {
            assert(check@ == c);
        }
        match String::from_utf8(check) {
            Err(_) => Err(()),
            Ok(_) => {
                proof {
                    assert(c.len() > 0);
                }
                let drop = last_scalar_len(&chunk);
                proof {
                    broadcast use vstd::utf8::valid_utf8_last;

                    valid_utf8_last(c);
                    assert(drop <= c.len()) by {
                        if drop > c.len() {
                            assert(c.len() < 4);
                        }
                        lemma_last_scalar_fits(c);
                    }
                }
                chunk.truncate(chunk.len() - drop);
                proof {
                    assert(chunk@ =~= pop_char(c));
                }
                Ok(chunk)
            },
        }
    }

    /// Reads exactly `n` bytes; an error when fewer are left.
    pub fn bytes(&mut self, n: usize) -> (r: Result<Vec<u8>, ()>)
        ensures
            final(self).data == old(self).data,
            match spec_read_bytes(old(self).data@, old(self).pos as int, n as int) {
                Some((b, p)) => r matches Ok(v) && v@ == b && final(self).pos == p,
                None => r is Err,
            },
    {
        let len = self.data.len();
        if n == 0 {
            return Ok(Vec::new());
        }
        if self.pos > len || n > len - self.pos {
            return Err(());
        }
        let start = self.pos;
        let mut out: Vec<u8> = Vec::new();
        let mut i: usize = 0;
        while i < n
            invariant
                i <= n,
                start + n <= len,
                len == self.data@.len(),
                out@ == self.data@.subrange(start as int, start + i),
            decreases n - i,
        {
            out.push(self.data[start + i]);
            proof {
                assert(self.data@.subrange(start as int, start + i + 1) =~= self.data@.subrange(start as int, start + i).push(self.data@[start + i]));
            }
            i = i + 1;
        }
        self.pos = start + n;
        Ok(out)
    }

    /// Moves `n` bytes ahead, past the end of the data if need be (a
    /// position past the end reads as the end).
    pub fn skip(&mut self, n: usize)
        ensures
            final(self).data == old(self).data,
            final(self).pos == (if old(self).pos + n <= usize::MAX {
                old(self).pos + n
            } else {
                usize::MAX as int
            }),
    {
        if n > usize::MAX - self.pos {
            self.pos = usize::MAX;
        } else {
            self.pos = self.pos + n;
        }
    }
}

/// Dropping the last character of valid UTF-8 leaves valid UTF-8.
pub proof fn lemma_pop_char_valid(c: Seq<u8>)
    requires
        valid_utf8(c),
    ensures
        valid_utf8(pop_char(c)),
    decreases c.len(),
{
    if c.len() > 0 {
        reveal_with_fuel(valid_utf8, 2);
        let n = c.len() as int;
        let w = length_of_first_scalar(c);
        let rest = pop_first_scalar(c);
        assert(valid_first_scalar(c));
        assert(1 <= w <= 4 && w <= n);
        assert(!is_continuation_byte(c[0]));
        assert(forall|j: int| 1 <= j < w ==> is_continuation_byte(#[trigger] c[j]));
        if rest.len() == 0 {
            assert(w == n);
            assert(length_of_last_scalar(c) == n);
            assert(pop_char(c) =~= Seq::<u8>::empty());
        } else {
            let m = rest.len() as int;
            assert(valid_utf8(rest));
            assert(valid_first_scalar(rest));
            assert(!is_continuation_byte(rest[0]));
            assert(forall|j: int| 0 <= j < m ==> #[trigger] rest[j] == c[w + j]);
            let k = length_of_last_scalar(rest);
            lemma_last_scalar_fits(rest);
            assert(length_of_last_scalar(c) == k) by {
                assert(rest[m - 1] == c[n - 1]);
                if m >= 2 {
                    assert(rest[m - 2] == c[n - 2]);
                }
                if m >= 3 {
                    assert(rest[m - 3] == c[n - 3]);
                }
            }
            lemma_pop_char_valid(rest);
            let first = c.subrange(0, w);
            let tail = pop_char(rest);
            assert(pop_char(c) =~= first + tail);
            let joined = first + tail;
            assert(joined.len() >= w);
            assert(forall|j: int| 0 <= j < w ==> #[trigger] joined[j] == c[j]);
            assert(valid_first_scalar(joined)) by {
                assert(joined[0] == c[0]);
                if w >= 2 {
                    assert(joined[1] == c[1]);
                }
                if w >= 3 {
                    assert(joined[2] == c[2]);
                }
                if w >= 4 {
                    assert(joined[3] == c[3]);
                }
            }
            assert(length_of_first_scalar(joined) == w);
            assert(pop_first_scalar(joined) =~= tail);
        }
    }
}

proof fn lemma_last_scalar_fits(c: Seq<u8>)
    requires
        c.len() > 0,
        valid_utf8(c),
    ensures
        length_of_last_scalar(c) <= c.len(),
        length_of_last_scalar(c) >= 1,
    decreases c.len(),
{
    // The first byte of valid UTF-8 is a leading byte, so the scan from the end
    // stops there at the latest.
    reveal_with_fuel(valid_utf8, 2);
    let n = c.len() as int;
    assert(!is_continuation_byte(c[0])) by {
        assert(valid_first_scalar(c));
    }
    if n == 1 {
    } else if n == 2 {
    } else if n == 3 {
    }
}

} // verus!
