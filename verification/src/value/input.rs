//! Reader for the wire value format: a cursor over an input byte slice.

use crate::key::{be64, from_be64};
use crate::value::model::{from_be32, lemma_skip_bounds, lemma_skip_fields_bounds, lemma_skip_items_bounds, spec_skip, spec_skip_fields, spec_skip_items};
use crate::value::{spec_tag_ty, try_u8_to_ty, Error, Ty};
use vstd::prelude::*;

verus! {

/// A decoding cursor over a byte slice.
pub struct InputProtocol<'a> {
    store: &'a [u8],
    pos: usize,
}

impl<'a> InputProtocol<'a> {
    /// The whole input.
    pub closed spec fn data(&self) -> Seq<u8> {
        self.store@
    }

    /// How far the cursor has advanced.
    pub closed spec fn pos_spec(&self) -> int {
        self.pos as int
    }

    /// The cursor never leaves the input.
    pub open spec fn wf(&self) -> bool {
        0 <= self.pos_spec() <= self.data().len()
    }

    /// The input still to be read.
    pub open spec fn remaining(&self) -> Seq<u8> {
        self.data().skip(self.pos_spec())
    }

    /// A reader positioned at the start of `store`.
    pub fn new(store: &'a [u8]) -> (r: Self)
        ensures
            r.wf(),
            r.data() == store@,
            r.pos_spec() == 0,
    {
        Self { store, pos: 0 }
    }

    /// Reads the next `n` bytes, or fails without consuming anything when
    /// fewer remain.
    pub fn read_n_bytes(&mut self, n: usize) -> (r: Result<Vec<u8>, Error>)
        requires
            old(self).wf(),
        ensures
            final(self).wf(),
            final(self).data() == old(self).data(),
            match r {
                Ok(v) => {
                    &&& old(self).remaining().len() >= n
                    &&& v@ == old(self).remaining().take(n as int)
                    &&& final(self).pos_spec() == old(self).pos_spec() + n
                },
                Err(e) => {
                    &&& e == Error::DecodePrematureEnd
                    &&& old(self).remaining().len() < n
                    &&& *final(self) == *old(self)
                },
            },
    {
        let len = self.store.len();
        if len - self.pos < n {
            return Err(Error::DecodePrematureEnd);
        }
        let mut buffer: Vec<u8> = Vec::with_capacity(n);
        let mut i: usize = 0;
        while i < n
            invariant
                0 <= i <= n,
                *self == *old(self),
                self.wf(),
                self.data().len() <= usize::MAX,
                n <= self.data().len() - self.pos_spec(),
                buffer@ == self.remaining().take(i as int),
            decreases n - i,
        {
            buffer.push(self.store[self.pos + i]);
            proof {
                assert(self.remaining().take(i + 1) =~= self.remaining().take(i as int).push(
                    self.remaining()[i as int],
                ));
            }
            i += 1;
        }
        self.pos = self.pos + n;
        Ok(buffer)
    }

    /// Reads the next `n` bytes as a borrow of the input, or fails without
    /// consuming anything when fewer remain.
    pub fn raw_read_bytes(&mut self, n: u32) -> (r: Result<&'a [u8], Error>)
        requires
            old(self).wf(),
        ensures
            final(self).wf(),
            final(self).data() == old(self).data(),
            match r {
                Ok(v) => {
                    &&& old(self).remaining().len() >= n
                    &&& v@ == old(self).remaining().take(n as int)
                    &&& final(self).pos_spec() == old(self).pos_spec() + n
                },
                Err(e) => {
                    &&& e == Error::DecodePrematureEnd
                    &&& old(self).remaining().len() < n
                    &&& *final(self) == *old(self)
                },
            },
    {
        let len = self.store.len();
        if n as usize > len - self.pos {
            return Err(Error::DecodePrematureEnd);
        }
        let r = &self.store[self.pos..self.pos + n as usize];
        proof {
            assert(r@ =~= old(self).remaining().take(n as int));
        }
        self.pos = self.pos + n as usize;
        Ok(r)
    }

    /// Reads an eight-byte big-endian integer.
    pub fn read_i64(&mut self) -> (r: Result<i64, Error>)
        requires
            old(self).wf(),
        ensures
            final(self).wf(),
            final(self).data() == old(self).data(),
            match r {
                Ok(v) => {
                    &&& old(self).remaining().len() >= 8
                    &&& v == from_be64(old(self).remaining().take(8)) as i64
                    &&& final(self).pos_spec() == old(self).pos_spec() + 8
                },
                Err(e) => {
                    &&& e == Error::DecodePrematureEnd
                    &&& old(self).remaining().len() < 8
                    &&& *final(self) == *old(self)
                },
            },
    {
        let b = self.read_n_bytes(8)?;
        Ok((((b[0] as u64) << 56u64) | ((b[1] as u64) << 48u64) | ((b[2] as u64) << 40u64) | ((b[3]
            as u64) << 32u64) | ((b[4] as u64) << 24u64) | ((b[5] as u64) << 16u64) | ((b[6]
            as u64) << 8u64) | (b[7] as u64)) as i64)
    }

    /// Reads an eight-byte big-endian float, returned as its IEEE-754 bit
    /// pattern.
    pub fn read_f64(&mut self) -> (r: Result<u64, Error>)
        requires
            old(self).wf(),
        ensures
            final(self).wf(),
            final(self).data() == old(self).data(),
            match r {
                Ok(v) => {
                    &&& old(self).remaining().len() >= 8
                    &&& v == from_be64(old(self).remaining().take(8))
                    &&& final(self).pos_spec() == old(self).pos_spec() + 8
                },
                Err(e) => {
                    &&& e == Error::DecodePrematureEnd
                    &&& old(self).remaining().len() < 8
                    &&& *final(self) == *old(self)
                },
            },
    {
        let b = self.read_n_bytes(8)?;
        Ok(((b[0] as u64) << 56u64) | ((b[1] as u64) << 48u64) | ((b[2] as u64) << 40u64) | ((b[3]
            as u64) << 32u64) | ((b[4] as u64) << 24u64) | ((b[5] as u64) << 16u64) | ((b[6]
            as u64) << 8u64) | (b[7] as u64))
    }

    /// Reads a four-byte big-endian count.
    pub fn raw_read_u32(&mut self) -> (r: Result<u32, Error>)
        requires
            old(self).wf(),
        ensures
            final(self).wf(),
            final(self).data() == old(self).data(),
            match r {
                Ok(v) => {
                    &&& old(self).remaining().len() >= 4
                    &&& v == from_be32(old(self).remaining().take(4))
                    &&& final(self).pos_spec() == old(self).pos_spec() + 4
                },
                Err(e) => {
                    &&& e == Error::DecodePrematureEnd
                    &&& old(self).remaining().len() < 4
                    &&& *final(self) == *old(self)
                },
            },
    {
        let b = self.read_n_bytes(4)?;
        Ok(((b[0] as u32) << 24u32) | ((b[1] as u32) << 16u32) | ((b[2] as u32) << 8u32) | (b[3]
            as u32))
    }

    /// Reads a length-framed byte string: a four-byte big-endian length,
    /// then that many bytes.
    pub fn read_bytes(&mut self) -> (r: Result<&'a [u8], Error>)
        requires
            old(self).wf(),
        ensures
            final(self).wf(),
            final(self).data() == old(self).data(),
            match r {
                Ok(v) => {
                    &&& old(self).remaining().len() >= 4
                    &&& ({
                        let n = from_be32(old(self).remaining().take(4)) as int;
                        &&& old(self).remaining().len() >= 4 + n
                        &&& v@ == old(self).remaining().subrange(4, 4 + n)
                        &&& final(self).pos_spec() == old(self).pos_spec() + 4 + n
                    })
                },
                Err(e) => {
                    &&& e == Error::DecodePrematureEnd
                    &&& final(self).pos_spec() >= old(self).pos_spec()
                    &&& {
                        let rem = old(self).remaining();
                        rem.len() < 4 || rem.len() < 4 + from_be32(rem.take(4)) as int
                    }
                },
            },
    {
        let size = self.raw_read_u32()?;
        let ghost mid = *self;
        let r = self.raw_read_bytes(size);
        proof {
            if r is Ok {
                assert(mid.remaining().take(size as int) =~= old(self).remaining().subrange(
                    4,
                    4 + size as int,
                ));
            }
        }
        r
    }

    /// Reads a two-byte field header: a type tag and a field index.
    pub fn read_field_header(&mut self) -> (r: Result<(Ty, u8), Error>)
        requires
            old(self).wf(),
        ensures
            final(self).wf(),
            final(self).data() == old(self).data(),
            match r {
                Ok((t, idx)) => {
                    &&& old(self).remaining().len() >= 2
                    &&& spec_tag_ty(old(self).remaining()[0]) == Some(t)
                    &&& idx == old(self).remaining()[1]
                    &&& final(self).pos_spec() == old(self).pos_spec() + 2
                },
                Err(e) => if old(self).remaining().len() < 2 {
                    &&& e == Error::DecodePrematureEnd
                    &&& *final(self) == *old(self)
                } else {
                    &&& e == Error::DecodeInvalidType
                    &&& spec_tag_ty(old(self).remaining()[0]) is None
                    &&& final(self).pos_spec() == old(self).pos_spec() + 2
                },
            },
    {
        let b = self.read_n_bytes(2)?;
        let ty = try_u8_to_ty(b[0])?;
        Ok((ty, b[1]))
    }

    /// Reads a list header: an item-type tag and a four-byte item count.
    pub fn read_list_header(&mut self) -> (r: Result<(Ty, u32), Error>)
        requires
            old(self).wf(),
        ensures
            final(self).wf(),
            final(self).data() == old(self).data(),
            match r {
                Ok((t, n)) => {
                    &&& old(self).remaining().len() >= 5
                    &&& spec_tag_ty(old(self).remaining()[0]) == Some(t)
                    &&& n == from_be32(old(self).remaining().subrange(1, 5))
                    &&& final(self).pos_spec() == old(self).pos_spec() + 5
                },
                Err(e) => {
                    let rem = old(self).remaining();
                    if rem.len() < 1 {
                        e == Error::DecodePrematureEnd && *final(self) == *old(self)
                    } else if spec_tag_ty(rem[0]) is None {
                        e == Error::DecodeInvalidType && final(self).pos_spec() == old(
                            self,
                        ).pos_spec() + 1
                    } else {
                        e == Error::DecodePrematureEnd && rem.len() < 5 && final(self).pos_spec()
                            == old(self).pos_spec() + 1
                    }
                },
            },
    {
        let b = self.read_n_bytes(1)?;
        let ty = try_u8_to_ty(b[0])?;
        let ghost mid = *self;
        let n = self.raw_read_u32()?;
        proof {
            assert(mid.remaining().take(4) =~= old(self).remaining().subrange(1, 5));
        }
        Ok((ty, n))
    }

    /// Reads a field header, mapping the stop header to `None`.
    pub fn read_non_stop_field(&mut self) -> (r: Result<Option<(Ty, u8)>, Error>)
        requires
            old(self).wf(),
        ensures
            final(self).wf(),
            final(self).data() == old(self).data(),
            match r {
                Ok(opt) => {
                    &&& old(self).remaining().len() >= 2
                    &&& final(self).pos_spec() == old(self).pos_spec() + 2
                    &&& match opt {
                        Some((t, idx)) => {
                            &&& spec_tag_ty(old(self).remaining()[0]) == Some(t)
                            &&& t != Ty::Stop
                            &&& idx == old(self).remaining()[1]
                        },
                        None => spec_tag_ty(old(self).remaining()[0]) == Some(Ty::Stop),
                    }
                },
                Err(e) => if old(self).remaining().len() < 2 {
                    &&& e == Error::DecodePrematureEnd
                    &&& *final(self) == *old(self)
                } else {
                    &&& e == Error::DecodeInvalidType
                    &&& spec_tag_ty(old(self).remaining()[0]) is None
                    &&& final(self).pos_spec() == old(self).pos_spec() + 2
                },
            },
    {
        let (ty, index) = self.read_field_header()?;
        if matches!(ty, Ty::Stop) {
            return Ok(None);
        }
        Ok(Some((ty, index)))
    }

    /// Consumes exactly one value body of the given wire type, without
    /// materializing it; nested lists and structs are skipped recursively.
    pub fn skip_field(&mut self, ty: Ty) -> (r: Result<(), Error>)
        requires
            old(self).wf(),
        ensures
            final(self).wf(),
            final(self).data() == old(self).data(),
            match spec_skip(ty, old(self).remaining()) {
                Ok(c) => r is Ok && final(self).pos_spec() == old(self).pos_spec() + c,
                Err(e) => r == Err::<(), Error>(e),
            },
        decreases old(self).remaining().len(), 1int, 0int,
    {
        match ty {
            Ty::Any | Ty::Stop => Ok(()),
            Ty::I64 | Ty::F64 => {
                self.read_n_bytes(8)?;
                Ok(())
            },
            Ty::Bytes => {
                self.read_bytes()?;
                Ok(())
            },
            Ty::List => {
                let ghost rem0 = old(self).remaining();
                let (item_ty, size) = self.read_list_header()?;
                let ghost rem1 = self.remaining();
                proof {
                    assert(rem1 =~= rem0.skip(5));
                }
                let mut i: u32 = 0;
                while i < size
                    invariant
                        ty is List,
                        0 <= i <= size,
                        self.wf(),
                        self.data() == old(self).data(),
                        old(self).wf(),
                        rem0 == old(self).remaining(),
                        rem0.len() >= 5,
                        spec_tag_ty(rem0[0]) == Some(item_ty),
                        size == from_be32(rem0.subrange(1, 5)),
                        rem1 == rem0.skip(5),
                        self.remaining().len() <= rem1.len(),
                        self.pos_spec() >= old(self).pos_spec() + 5,
                        spec_skip_items(item_ty, size as int, rem1) == (match spec_skip_items(
                            item_ty,
                            size - i,
                            self.remaining(),
                        ) {
                            Ok(c2) => Ok::<int, Error>(
                                self.pos_spec() - (old(self).pos_spec() + 5) + c2,
                            ),
                            Err(e) => Err::<int, Error>(e),
                        }),
                    decreases size - i,
                {
                    let ghost pre = *self;
                    let step = self.skip_field(item_ty);
                    proof {
                        lemma_skip_bounds(item_ty, pre.remaining());
                        if step is Err {
                            let e = step->Err_0;
                            assert(spec_skip(item_ty, pre.remaining()) == Err::<int, Error>(e));
                            assert(spec_skip_items(item_ty, size - i, pre.remaining())
                                == Err::<int, Error>(e));
                            assert(spec_skip_items(item_ty, size as int, rem1) == Err::<
                                int,
                                Error,
                            >(e));
                            assert(ty is List);
                            assert(rem0.len() >= 5);
                            assert(spec_tag_ty(rem0[0]) == Some(item_ty));
                            assert(from_be32(rem0.subrange(1, 5)) == size);
                            assert(spec_skip(ty, rem0) == (match spec_skip_items(
                                item_ty,
                                size as int,
                                rem0.skip(5),
                            ) {
                                Ok(c) => Ok::<int, Error>(5 + c),
                                Err(e2) => Err::<int, Error>(e2),
                            }));
                            assert(spec_skip(ty, rem0) == Err::<int, Error>(e));
                        }
                    }
                    step?;
                    proof {
                        let c = spec_skip(item_ty, pre.remaining())->Ok_0;
                        assert(self.remaining() =~= pre.remaining().skip(c));
                        assert(spec_skip_items(item_ty, size - i, pre.remaining()) == (
                        match spec_skip_items(item_ty, size - i - 1, self.remaining()) {
                            Ok(c2) => Ok::<int, Error>(c + c2),
                            Err(e) => Err::<int, Error>(e),
                        }));
                    }
                    i += 1;
                }
                proof {
                    assert(spec_skip_items(item_ty, 0, self.remaining()) == Ok::<int, Error>(0));
                    assert(spec_skip(ty, rem0) == (match spec_skip_items(
                        item_ty,
                        size as int,
                        rem1,
                    ) {
                        Ok(c) => Ok::<int, Error>(5 + c),
                        Err(e) => Err::<int, Error>(e),
                    }));
                }
                Ok(())
            },
            Ty::Struct => {
                let ghost rem0 = old(self).remaining();
                let mut done = false;
                while !done
                    invariant
                        ty is Struct,
                        self.wf(),
                        old(self).wf(),
                        self.data() == old(self).data(),
                        self.remaining().len() <= rem0.len(),
                        rem0 == old(self).remaining(),
                        self.pos_spec() >= old(self).pos_spec(),
                        !done ==> spec_skip_fields(rem0) == (match spec_skip_fields(
                            self.remaining(),
                        ) {
                            Ok(c2) => Ok::<int, Error>(self.pos_spec() - old(self).pos_spec() + c2),
                            Err(e) => Err::<int, Error>(e),
                        }),
                        done ==> (spec_skip_fields(rem0) matches Ok(c) && self.pos_spec() == old(
                            self,
                        ).pos_spec() + c),
                    decreases self.remaining().len(), (if done { 0int } else { 1int }),
                {
                    let ghost pre = *self;
                    let header = self.read_non_stop_field();
                    match header {
                        Err(e) => {
                            proof {
                                assert(spec_skip_fields(pre.remaining()) == Err::<int, Error>(e));
                            }
                            return Err(e);
                        },
                        Ok(None) => {
                            proof {
                                assert(spec_skip_fields(pre.remaining()) == Ok::<int, Error>(2));
                            }
                            done = true;
                        },
                        Ok(Some((t, _index))) => {
                            proof {
                                assert(self.remaining() =~= pre.remaining().skip(2));
                            }
                            let ghost mid = *self;
                            let step = self.skip_field(t);
                            proof {
                                lemma_skip_bounds(t, mid.remaining());
                                if step is Err {
                                    assert(spec_skip(t, mid.remaining()) is Err);
                                    assert(spec_skip_fields(pre.remaining()) == Err::<int, Error>(
                                        step->Err_0,
                                    ));
                                }
                            }
                            step?;
                            proof {
                                let c = spec_skip(t, mid.remaining())->Ok_0;
                                assert(self.remaining() =~= pre.remaining().skip(2 + c));
                                assert(spec_skip_fields(pre.remaining()) == (match spec_skip_fields(
                                    self.remaining(),
                                ) {
                                    Ok(c2) => Ok::<int, Error>(2 + c + c2),
                                    Err(e) => Err::<int, Error>(e),
                                }));
                            }
                        },
                    }
                }
                Ok(())
            },
        }
    }
}

} // verus!
