use vstd::prelude::*;
use std::sync::Arc;
use crate::error::DirError;

verus! {

/// A reference-counted, zero-copy-shareable view over a byte buffer.
///
/// The buffer itself sits behind a shared handle; a value of this type only
/// narrows the view with a half-open range. Slicing and splitting never copy
/// bytes: they clone the handle and adjust the range, so the memory stays
/// live as long as any view derived from it is alive.
pub struct OwnedBytes {
    data: Arc<Vec<u8>>,
    start: usize,
    end: usize,
}

impl View for OwnedBytes {
    type V = Seq<u8>;

    closed spec fn view(&self) -> Seq<u8> {
        self.data@.subrange(self.start as int, self.end as int)
    }
}

impl OwnedBytes {
    #[verifier::type_invariant]
    spec fn wf(self) -> bool {
        self.start <= self.end <= self.data@.len()
    }

    /// Wraps a byte vector, viewing its full extent.
    pub fn new(data: Vec<u8>) -> (b: OwnedBytes)
        ensures
            b@ == data@,
    {
        let n = data.len();
        let b = OwnedBytes { data: Arc::new(data), start: 0, end: n };
        proof {
            assert(b@ =~= b.data@);
        }
        b
    }

    /// The canonical zero-length buffer.
    pub fn empty() -> (b: OwnedBytes)
        ensures
            b@ == Seq::<u8>::empty(),
    {
        OwnedBytes::new(Vec::new())
    }

    /// Narrows the view to a sub-range, sharing the same underlying buffer.
    pub fn slice(&self, range: core::ops::Range<usize>) -> (b: OwnedBytes)
        requires
            range.start <= range.end <= self@.len(),
        ensures
            b@ == self@.subrange(range.start as int, range.end as int),
    {
        proof {
            use_type_invariant(&*self);
        }
        let b = OwnedBytes {
            data: self.data.clone(),
            start: self.start + range.start,
            end: self.start + range.end,
        };
        proof {
            assert(b@ =~= self@.subrange(range.start as int, range.end as int));
        }
        b
    }

    /// Borrows the bytes of the current view.
    pub fn as_slice(&self) -> (s: &[u8])
        ensures
            s@ == self@,
    {
        proof {
            use_type_invariant(&*self);
        }
        vstd::slice::slice_subrange((*self.data).as_slice(), self.start, self.end)
    }

    pub fn len(&self) -> (n: usize)
        ensures
            n == self@.len(),
    {
        proof {
            use_type_invariant(&*self);
        }
        self.end - self.start
    }

    pub fn is_empty(&self) -> (b: bool)
        ensures
            b == (self@.len() == 0),
    {
        self.len() == 0
    }

    /// Partitions the view at a byte offset; both halves share the buffer.
    pub fn split(self, split_len: usize) -> (r: (OwnedBytes, OwnedBytes))
        requires
            split_len <= self@.len(),
        ensures
            r.0@ == self@.subrange(0, split_len as int),
            r.1@ == self@.subrange(split_len as int, self@.len() as int),
    {
        proof {
            use_type_invariant(&self);
        }
        let left = OwnedBytes {
            data: self.data.clone(),
            start: self.start,
            end: self.start + split_len,
        };
        let right = OwnedBytes {
            data: self.data,
            start: left.end,
            end: self.end,
        };
        proof {
            assert(left@ =~= self@.subrange(0, split_len as int));
            assert(right@ =~= self@.subrange(split_len as int, self@.len() as int));
        }
        (left, right)
    }

    /// Drops the first `advance_len` bytes from this view only; other views
    /// of the same buffer are unaffected.
    pub fn advance(&mut self, advance_len: usize)
        requires
            advance_len <= old(self)@.len(),
        ensures
            final(self)@ == old(self)@.subrange(advance_len as int, old(self)@.len() as int),
    {
        proof {
            use_type_invariant(&*self);
        }
        self.start = self.start + advance_len;
        proof {
            assert(self@ =~= old(self)@.subrange(advance_len as int, old(self)@.len() as int));
        }
    }

    /// Reads the first byte and advances past it.
    pub fn read_u8(&mut self) -> (b: u8)
        requires
            old(self)@.len() >= 1,
        ensures
            b == old(self)@[0],
            final(self)@ == old(self)@.subrange(1, old(self)@.len() as int),
    {
        let b = *vstd::slice::slice_index_get(self.as_slice(), 0);
        self.advance(1);
        b
    }

    /// Reads a little-endian `u64` from the first eight bytes and advances
    /// past them.
    pub fn read_u64(&mut self) -> (x: u64)
        requires
            old(self)@.len() >= 8,
        ensures
            x == vstd::bytes::spec_u64_from_le_bytes(old(self)@.subrange(0, 8)),
            final(self)@ == old(self)@.subrange(8, old(self)@.len() as int),
    {
        let octlet: &[u8] = vstd::slice::slice_subrange(self.as_slice(), 0, 8);
        let x = vstd::bytes::u64_from_le_bytes(octlet);
        self.advance(8);
        x
    }

    /// Copies bytes into the front of `buf`, as many as both lengths allow,
    /// and advances past them. The length of `buf` is left unchanged; bytes
    /// of `buf` beyond the copied prefix keep their old values.
    pub fn read(&mut self, buf: &mut Vec<u8>) -> (n: usize)
        ensures
            n == if old(self)@.len() <= old(buf)@.len() {
                old(self)@.len() as int
            } else {
                old(buf)@.len() as int
            },
            final(buf)@.len() == old(buf)@.len(),
            final(buf)@ == old(self)@.take(n as int) + old(buf)@.skip(n as int),
            final(self)@ == old(self)@.subrange(n as int, old(self)@.len() as int),
    {
        let self_len = self.len();
        let buf_len = buf.len();
        let n: usize = if self_len <= buf_len {
            self_len
        } else {
            buf_len
        };
        let mut i: usize = 0;
        while i < n
            invariant
                i <= n,
                n <= self@.len(),
                n <= buf@.len(),
                self@ == old(self)@,
                buf@.len() == old(buf)@.len(),
                buf@ == old(self)@.take(i as int) + old(buf)@.skip(i as int),
            decreases n - i,
        {
            let b = *vstd::slice::slice_index_get(self.as_slice(), i);
            let p = vstd::std_specs::vec::vec_index_mut(buf, i);
            *p = b;
            proof {
                assert(buf@ =~= old(self)@.take(i + 1) + old(buf)@.skip(i + 1));
            }
            i = i + 1;
        }
        self.advance(n);
        n
    }

    /// Appends the whole remaining view to `buf` and advances to the end.
    pub fn read_to_end(&mut self, buf: &mut Vec<u8>) -> (n: usize)
        ensures
            n == old(self)@.len(),
            final(buf)@ == old(buf)@ + old(self)@,
            final(self)@ == Seq::<u8>::empty(),
    {
        let n = self.len();
        let data = self.as_slice();
        buf.extend_from_slice(data);
        self.advance(n);
        proof {
            assert(self@ =~= Seq::<u8>::empty());
        }
        n
    }

    /// Fills `buf` exactly, or reports `Io` when fewer bytes remain than
    /// `buf` holds; in that case the remaining bytes were still copied into
    /// the front of `buf` and this view is left empty.
    pub fn read_exact(&mut self, buf: &mut Vec<u8>) -> (r: Result<(), DirError>)
        ensures
            r is Ok <==> old(self)@.len() >= old(buf)@.len(),
            r is Err ==> r == Err::<(), DirError>(DirError::Io),
            final(buf)@.len() == old(buf)@.len(),
            ({
                let n = if old(self)@.len() <= old(buf)@.len() {
                    old(self)@.len() as int
                } else {
                    old(buf)@.len() as int
                };
                final(buf)@ == old(self)@.take(n) + old(buf)@.skip(n)
                    && final(self)@ == old(self)@.subrange(n, old(self)@.len() as int)
            }),
    {
        let n = self.read(buf);
        if n != buf.len() {
            Err(DirError::Io)
        } else {
            Ok(())
        }
    }
}

impl Clone for OwnedBytes {
    /// Cloning shares the buffer: only a reference count moves.
    fn clone(&self) -> (r: Self)
        ensures
            r == *self,
    {
        proof {
            use_type_invariant(&*self);
        }
        OwnedBytes { data: self.data.clone(), start: self.start, end: self.end }
    }
}

/// The decimal digit characters.
pub open spec fn digit_char(d: nat) -> char {
    if d == 0 {
        '0'
    } else if d == 1 {
        '1'
    } else if d == 2 {
        '2'
    } else if d == 3 {
        '3'
    } else if d == 4 {
        '4'
    } else if d == 5 {
        '5'
    } else if d == 6 {
        '6'
    } else if d == 7 {
        '7'
    } else if d == 8 {
        '8'
    } else {
        '9'
    }
}

/// The decimal rendering of a number, most significant digit first.
pub open spec fn decimal_digits(n: nat) -> Seq<char>
    decreases n,
{
    if n < 10 {
        seq![digit_char(n)]
    } else {
        decimal_digits(n / 10).push(digit_char(n % 10))
    }
}

/// The decimal renderings of the bytes, separated by a comma and a blank.
pub open spec fn bytes_decimal(s: Seq<u8>) -> Seq<char>
    decreases s.len(),
{
    if s.len() == 0 {
        Seq::empty()
    } else if s.len() == 1 {
        decimal_digits(s[0] as nat)
    } else {
        bytes_decimal(s.drop_last()) + seq![',', ' '] + decimal_digits(s.last() as nat)
    }
}

/// The rendering a buffer shows of itself: its bytes in decimal — at most
/// the first ten, and only when more than eight are held — and its length.
pub open spec fn debug_repr(bytes: Seq<u8>) -> Seq<char> {
    let shown = if bytes.len() > 8 {
        bytes.take(if bytes.len() < 10 {
            bytes.len() as int
        } else {
            10
        })
    } else {
        bytes
    };
    "OwnedBytes(["@ + bytes_decimal(shown) + "], len="@ + decimal_digits(bytes.len()) + ")"@
}

fn push_digit(out: &mut String, d: u8)
    requires
        d < 10,
    ensures
        final(out)@ == old(out)@.push(digit_char(d as nat)),
{
    if d == 0 {
        out.append("0");
        proof {
            reveal_strlit("0");
            assert(out@ =~= old(out)@.push('0'));
        }
    } else if d == 1 {
        out.append("1");
        proof {
            reveal_strlit("1");
            assert(out@ =~= old(out)@.push('1'));
        }
    } else if d == 2 {
        out.append("2");
        proof {
            reveal_strlit("2");
            assert(out@ =~= old(out)@.push('2'));
        }
    } else if d == 3 {
        out.append("3");
        proof {
            reveal_strlit("3");
            assert(out@ =~= old(out)@.push('3'));
        }
    } else if d == 4 {
        out.append("4");
        proof {
            reveal_strlit("4");
            assert(out@ =~= old(out)@.push('4'));
        }
    } else if d == 5 {
        out.append("5");
        proof {
            reveal_strlit("5");
            assert(out@ =~= old(out)@.push('5'));
        }
    } else if d == 6 {
        out.append("6");
        proof {
            reveal_strlit("6");
            assert(out@ =~= old(out)@.push('6'));
        }
    } else if d == 7 {
        out.append("7");
        proof {
            reveal_strlit("7");
            assert(out@ =~= old(out)@.push('7'));
        }
    } else if d == 8 {
        out.append("8");
        proof {
            reveal_strlit("8");
            assert(out@ =~= old(out)@.push('8'));
        }
    } else {
        out.append("9");
        proof {
            reveal_strlit("9");
            assert(out@ =~= old(out)@.push('9'));
        }
    }
}

fn push_decimal(out: &mut String, n: usize)
    ensures
        final(out)@ == old(out)@ + decimal_digits(n as nat),
    decreases n,
{
    if n < 10 {
        push_digit(out, n as u8);
        proof {
            assert(out@ =~= old(out)@ + decimal_digits(n as nat));
        }
    } else {
        push_decimal(out, n / 10);
        push_digit(out, (n % 10) as u8);
        proof {
            assert(out@ =~= old(out)@ + decimal_digits(n as nat));
        }
    }
}

impl OwnedBytes {
    /// Renders this buffer the way it describes itself: the bytes in decimal,
    /// truncated to the first ten when more than eight are held, then the
    /// length of the view.
    pub fn debug_string(&self) -> (s: String)
        ensures
            s@ == debug_repr(self@),
    {
        let n = self.len();
        let shown_len: usize = if n > 8 {
            if n < 10 {
                n
            } else {
                10
            }
        } else {
            n
        };
        let ghost shown = self@.take(shown_len as int);
        let mut out = String::from_str("OwnedBytes([");
        let mut i: usize = 0;
        while i < shown_len
            invariant
                i <= shown_len,
                shown_len <= self@.len(),
                shown == self@.take(shown_len as int),
                out@ == "OwnedBytes(["@ + bytes_decimal(shown.take(i as int)),
            decreases shown_len - i,
        {
            if i > 0 {
                out.append(", ");
            }
            let b = *vstd::slice::slice_index_get(self.as_slice(), i);
            push_decimal(&mut out, b as usize);
            proof {
                reveal_strlit(", ");
                assert(", "@ =~= seq![',', ' ']);
                assert(shown.take(i + 1).drop_last() =~= shown.take(i as int));
                assert(shown.take(i + 1).last() == self@[i as int]);
                if i == 0 {
                    assert(bytes_decimal(shown.take(1)) == decimal_digits(shown.take(1)[0] as nat));
                    assert(shown.take(1)[0] == self@[0]);
                    assert(out@ =~= "OwnedBytes(["@ + bytes_decimal(shown.take(i + 1)));
                } else {
                    assert(bytes_decimal(shown.take(i + 1)) == bytes_decimal(shown.take(i as int))
                        + seq![',', ' '] + decimal_digits(shown.take(i + 1).last() as nat));
                    assert(out@ =~= "OwnedBytes(["@ + bytes_decimal(shown.take(i + 1)));
                }
            }
            i = i + 1;
        }
        out.append("], len=");
        push_decimal(&mut out, n);
        out.append(")");
        proof {
            assert(shown.take(shown_len as int) =~= shown);
            if n <= 8 {
                assert(shown =~= self@);
            }
            assert(out@ =~= debug_repr(self@));
        }
        out
    }
}

} // verus!
