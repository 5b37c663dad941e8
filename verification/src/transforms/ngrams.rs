use vstd::prelude::*;

verus! {

/// Number of complete `n`-byte blocks in an input of length `len`:
/// `len - n + 1` when `1 <= n <= len`, otherwise zero.
pub open spec fn window_count(len: nat, n: nat) -> nat {
    if 1 <= n && n <= len {
        (len - n + 1) as nat
    } else {
        0
    }
}

/// The `n`-byte block of `data` that starts at position `i`.
pub open spec fn block_at(data: Seq<u8>, n: nat, i: int) -> Seq<u8> {
    data.subrange(i, i + n)
}

/// Every overlapping `n`-byte block of `data`, in order of starting position.
pub open spec fn blocks_of(data: Seq<u8>, n: nat) -> Seq<Seq<u8>> {
    Seq::new(window_count(data.len(), n), |i: int| block_at(data, n, i))
}

/// A zero n-gram length, which cannot describe an observed nonempty block.
///
/// All three n-gram constructors reject zero, including for empty input.
#[derive(Clone, Copy, Debug, PartialEq, Eq)]
pub struct InvalidNgramLength;

impl InvalidNgramLength {
    /// The human-readable description of this error.
    pub fn message(&self) -> (r: String)
        ensures
            r@ == "n-gram length must be greater than zero"@,
    {
        "n-gram length must be greater than zero".to_string()
    }
}

/// The remaining overlapping blocks of an input, borrowed without copying.
///
/// Blocks are taken from the front with `next` and from the back with
/// `next_back`; the number left is always known exactly. Once empty, it
/// stays empty. The model (`@`) is the sequence of blocks not yet taken.
#[derive(Debug)]
pub struct NgramWindows<'a> {
    data: &'a [u8],
    n: usize,
    front: usize,
    back: usize,
}

impl<'a> View for NgramWindows<'a> {
    type V = Seq<Seq<u8>>;

    closed spec fn view(&self) -> Seq<Seq<u8>> {
        Seq::new(
            (self.back - self.front) as nat,
            |i: int| block_at(self.data@, self.n as nat, self.front + i),
        )
    }
}

impl<'a> Clone for NgramWindows<'a> {
    fn clone(&self) -> (r: Self)
        ensures
            r@ == self@,
            r.block_len() == self.block_len(),
    {
        proof {
            use_type_invariant(self);
        }
        NgramWindows { data: self.data, n: self.n, front: self.front, back: self.back }
    }
}

impl<'a> NgramWindows<'a> {
    #[verifier::type_invariant]
    spec fn positions_valid(&self) -> bool {
        &&& self.n >= 1
        &&& self.front <= self.back
        &&& self.back <= window_count(self.data@.len(), self.n as nat)
    }

    /// The block length in bytes.
    pub closed spec fn block_len(&self) -> nat {
        self.n as nat
    }

    /// Returns the exact number of blocks left.
    pub fn len(&self) -> (r: usize)
        ensures
            r == self@.len(),
    {
        proof {
            use_type_invariant(self);
        }
        self.back - self.front
    }

    /// Returns whether no block is left.
    pub fn is_empty(&self) -> (r: bool)
        ensures
            r <==> self@.len() == 0,
    {
        proof {
            use_type_invariant(self);
        }
        self.front == self.back
    }

    /// Takes the first remaining block, or returns `None` when none is left.
    pub fn next(&mut self) -> (r: Option<&'a [u8]>)
        ensures
            old(self)@.len() == 0 ==> r is None && final(self)@ == old(self)@,
            old(self)@.len() > 0 ==> (r matches Some(b) && b@ == old(self)@[0]),
            old(self)@.len() > 0 ==> final(self)@ == old(self)@.drop_first(),
            final(self).block_len() == old(self).block_len(),
    {
        proof {
            use_type_invariant(&*self);
        }
        if self.front < self.back {
            let data: &'a [u8] = self.data;
            let start = self.front;
            let _len = data.len();
            let block = &data[start..start + self.n];
            self.front = start + 1;
            proof {
                assert(self@ =~= old(self)@.drop_first());
            }
            Some(block)
        } else {
            None
        }
    }

    /// Takes the last remaining block, or returns `None` when none is left.
    pub fn next_back(&mut self) -> (r: Option<&'a [u8]>)
        ensures
            old(self)@.len() == 0 ==> r is None && final(self)@ == old(self)@,
            old(self)@.len() > 0 ==> (r matches Some(b) && b@ == old(self)@.last()),
            old(self)@.len() > 0 ==> final(self)@ == old(self)@.drop_last(),
            final(self).block_len() == old(self).block_len(),
    {
        proof {
            use_type_invariant(&*self);
        }
        if self.front < self.back {
            let data: &'a [u8] = self.data;
            let start = self.back - 1;
            let _len = data.len();
            let block = &data[start..start + self.n];
            self.back = start;
            proof {
                assert(self@ =~= old(self)@.drop_last());
            }
            Some(block)
        } else {
            None
        }
    }

    /// Skips `k` blocks and takes the next one; when fewer than `k + 1` blocks
    /// are left, takes them all and returns `None`.
    pub fn nth(&mut self, k: usize) -> (r: Option<&'a [u8]>)
        ensures
            k < old(self)@.len() ==> (r matches Some(b) && b@ == old(self)@[k as int]),
            k < old(self)@.len() ==> final(self)@ == old(self)@.skip(k + 1),
            k >= old(self)@.len() ==> r is None && final(self)@.len() == 0,
            final(self).block_len() == old(self).block_len(),
    {
        proof {
            use_type_invariant(&*self);
        }
        if k < self.back - self.front {
            let data: &'a [u8] = self.data;
            let start = self.front + k;
            let _len = data.len();
            let block = &data[start..start + self.n];
            self.front = start + 1;
            proof {
                assert(self@ =~= old(self)@.skip(k + 1));
            }
            Some(block)
        } else {
            self.front = self.back;
            None
        }
    }

    /// Collects the remaining blocks in order, each borrowing the input.
    pub fn to_vec(&self) -> (r: Vec<&'a [u8]>)
        ensures
            r@.len() == self@.len(),
            forall|i: int| 0 <= i < r@.len() ==> (#[trigger] r@[i])@ == self@[i],
    {
        proof {
            use_type_invariant(self);
        }
        let data: &'a [u8] = self.data;
        let mut out: Vec<&'a [u8]> = Vec::new();
        let mut pos = self.front;
        while pos < self.back
            invariant
                self.front <= pos <= self.back,
                self.back <= window_count(data@.len(), self.n as nat),
                self.n >= 1,
                data@ == self.data@,
                out@.len() == pos - self.front,
                forall|i: int| 0 <= i < out@.len() ==> (#[trigger] out@[i])@ == self@[i],
            decreases self.back - pos,
        {
            let _len = data.len();
            let block = &data[pos..pos + self.n];
            out.push(block);
            pos = pos + 1;
        }
        out
    }
}

/// Borrows every contiguous `n`-byte block, advancing one byte at a time.
///
/// For input length `L`, yields `L - n + 1` blocks if `1 <= n <= L`, otherwise
/// none for a valid `n`. There is no padding, wrapping, or text decoding.
/// Returns `InvalidNgramLength` exactly when `n == 0`, even for empty input.
pub fn ngrams(data: &[u8], n: usize) -> (r: Result<NgramWindows<'_>, InvalidNgramLength>)
    ensures
        r is Err <==> n == 0,
        r matches Ok(w) ==> (w@ == blocks_of(data@, n as nat) && w.block_len() == n),
        r matches Ok(w) ==> w@.len() == (if n <= data@.len() {
            data@.len() - n + 1
        } else {
            0
        }),
        r matches Ok(w) ==> forall|i: int|
            0 <= i < w@.len() ==> #[trigger] w@[i] == data@.subrange(i, i + n),
{
    if n == 0 {
        return Err(InvalidNgramLength);
    }
    let count = if n <= data.len() {
        data.len() - n + 1
    } else {
        0
    };
    let w = NgramWindows { data, n, front: 0, back: count };
    proof {
        assert(w@ =~= blocks_of(data@, n as nat));
    }
    Ok(w)
}

/// The blocks of an input of length `L` are its `L - n + 1` slices
/// `data[i..i + n]` (none when `n > L`), for every length of input.
pub proof fn lemma_blocks_are_all_windows(data: Seq<u8>, n: nat)
    requires
        n >= 1,
    ensures
        blocks_of(data, n).len() == (if n <= data.len() {
            data.len() - n + 1
        } else {
            0
        }),
        forall|i: int|
            0 <= i < blocks_of(data, n).len() ==> #[trigger] blocks_of(data, n)[i] == data.subrange(
                i,
                i + n,
            ),
{
}

/// Appending one byte keeps every earlier block and adds exactly one block,
/// the last `n` bytes of the longer input (when it is at least `n` long).
pub proof fn lemma_append_adds_last_block(data: Seq<u8>, x: u8, n: nat)
    requires
        n >= 1,
    ensures
        n <= data.len() + 1 ==> blocks_of(data.push(x), n) == blocks_of(data, n).push(
            data.push(x).subrange(data.len() + 1 - n, data.len() + 1 as int),
        ),
        n > data.len() + 1 ==> blocks_of(data.push(x), n).len() == 0,
{
    let d = data.push(x);
    if n <= data.len() + 1 {
        let last = d.subrange(data.len() + 1 - n, data.len() + 1 as int);
        let a = blocks_of(d, n);
        let b = blocks_of(data, n).push(last);
        assert(a.len() == b.len());
        assert forall|i: int| 0 <= i < a.len() implies a[i] == b[i] by {
            if i < a.len() - 1 {
                assert(d.subrange(i, i + n) =~= data.subrange(i, i + n));
            }
        }
        assert(a =~= b);
    }
}

} // verus!
