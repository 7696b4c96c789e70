use vstd::prelude::*;
use sha1::Digest;

verus! {

/// A running SHA-1 state of the sha1 crate. Its type is generic over the
/// hash core with bounds from the crate's numeric-type machinery, so it is held
/// here opaquely.
#[verifier::external_body]
pub struct Sha1State {
    inner: sha1::Sha1,
}

/// The SHA-1 digest of a byte sequence, as the sha1 crate computes it.
pub uninterp spec fn sha1_digest_of(data: Seq<u8>) -> Seq<u8>;

/// The bytes fed so far into a running SHA-1 state.
pub uninterp spec fn sha1_fed(h: Sha1State) -> Seq<u8>;

/// Relies on sha1's `Sha1::new`: a fresh state has been fed nothing.
#[verifier::external_body]
fn sha1_new() -> (r: Sha1State)
    ensures
        sha1_fed(r) == Seq::<u8>::empty(),
{
    Sha1State { inner: sha1::Sha1::new() }
}

/// Relies on sha1's `Digest::update`: the state has been fed `data` in addition.
#[verifier::external_body]
fn sha1_update(h: &mut Sha1State, data: &[u8])
    ensures
        sha1_fed(*final(h)) == sha1_fed(*old(h)) + data@,
{
    h.inner.update(data)
}

/// Relies on sha1's `Digest::finalize`: the 20-byte digest of all that was fed.
#[verifier::external_body]
fn sha1_finalize(h: Sha1State) -> (r: Vec<u8>)
    ensures
        r@ == sha1_digest_of(sha1_fed(h)),
        r@.len() == 20,
{
    h.inner.finalize().to_vec()
}

/// Relies on sha1's `Digest::digest`: the 20-byte digest of `data`.
#[verifier::external_body]
pub(crate) fn sha1_digest(data: &[u8]) -> (r: Vec<u8>)
    ensures
        r@ == sha1_digest_of(data@),
        r@.len() == 20,
{
    sha1::Sha1::digest(data).to_vec()
}

} // verus!

verus! {

pub open spec fn hex_chars() -> Seq<char> {
    seq!['0', '1', '2', '3', '4', '5', '6', '7', '8', '9', 'A', 'B', 'C', 'D', 'E', 'F']
}

/// Two upper-case hex digits per byte, high nibble first.
pub open spec fn upper_hex(b: Seq<u8>) -> Seq<char>
    decreases b.len(),
{
    if b.len() == 0 {
        Seq::empty()
    } else {
        upper_hex(b.drop_last()) + seq![hex_chars()[(b.last() / 16) as int], hex_chars()[(b.last() % 16) as int]]
    }
}

fn hex_digit(n: u8) -> (r: &'static str)
    requires
        n < 16,
    ensures
        r@ == seq![hex_chars()[n as int]],
{
    match n {
        0 => {
            proof { reveal_strlit("0"); }
            "0"
        },
        1 => {
            proof { reveal_strlit("1"); }
            "1"
        },
        2 => {
            proof { reveal_strlit("2"); }
            "2"
        },
        3 => {
            proof { reveal_strlit("3"); }
            "3"
        },
        4 => {
            proof { reveal_strlit("4"); }
            "4"
        },
        5 => {
            proof { reveal_strlit("5"); }
            "5"
        },
        6 => {
            proof { reveal_strlit("6"); }
            "6"
        },
        7 => {
            proof { reveal_strlit("7"); }
            "7"
        },
        8 => {
            proof { reveal_strlit("8"); }
            "8"
        },
        9 => {
            proof { reveal_strlit("9"); }
            "9"
        },
        10 => {
            proof { reveal_strlit("A"); }
            "A"
        },
        11 => {
            proof { reveal_strlit("B"); }
            "B"
        },
        12 => {
            proof { reveal_strlit("C"); }
            "C"
        },
        13 => {
            proof { reveal_strlit("D"); }
            "D"
        },
        14 => {
            proof { reveal_strlit("E"); }
            "E"
        },
        _ => {
            proof { reveal_strlit("F"); }
            "F"
        },
    }
}

/// Formats bytes as upper-case hex.
pub fn to_upper_hex(b: &[u8]) -> (r: String)
    ensures
        r@ == upper_hex(b@),
{
    let mut s = String::new();
    let mut i: usize = 0;
    while i < b.len()
        invariant
            i <= b@.len(),
            s@ == upper_hex(b@.subrange(0, i as int)),
        decreases b@.len() - i,
    {
        proof {
            assert(b@.subrange(0, i as int + 1).drop_last() =~= b@.subrange(0, i as int));
        }
        s.append(hex_digit(b[i] / 16));
        s.append(hex_digit(b[i] % 16));
        i = i + 1;
    }
    assert(b@.subrange(0, b@.len() as int) =~= b@);
    s
}

/// The SHA-1 of `data` as 40 upper-case hex digits.
pub fn sha1_hex(data: &[u8]) -> (r: String)
    ensures
        r@ == upper_hex(sha1_digest_of(data@)),
{
    let d = sha1_digest(data);
    to_upper_hex(d.as_slice())
}

/// The error of a second request for the digest of a [`Sha1Readr`].
#[derive(PartialEq, Eq, Structural, Clone, Copy, Debug)]
pub enum HashError {
    AlreadyFinalized,
}

/// An accumulator fed with every byte read from a stream: it counts them and
/// keeps their running SHA-1, whose digest can be taken once.
pub struct Sha1Readr {
    hasher: Option<Sha1State>,
    length: u64,
    fed: Ghost<Seq<u8>>,
}

impl Sha1Readr {
    /// The bytes fed so far.
    pub closed spec fn consumed(&self) -> Seq<u8> {
        self.fed@
    }

    /// Whether the digest has been taken.
    pub closed spec fn finalized(&self) -> bool {
        self.hasher is None
    }

    pub closed spec fn wf(&self) -> bool {
        &&& self.length == self.fed@.len()
        &&& match self.hasher {
            Some(h) => sha1_fed(h) == self.fed@,
            None => true,
        }
    }

    pub fn new() -> (r: Sha1Readr)
        ensures
            r.wf(),
            r.consumed() == Seq::<u8>::empty(),
            !r.finalized(),
    {
        Sha1Readr { hasher: Some(sha1_new()), length: 0, fed: Ghost(Seq::empty()) }
    }

    /// Feeds the bytes just read.
    pub fn update(&mut self, buf: &[u8])
        requires
            old(self).wf(),
            old(self).consumed().len() + buf@.len() <= u64::MAX,
        ensures
            final(self).wf(),
            final(self).consumed() == old(self).consumed() + buf@,
            final(self).finalized() == old(self).finalized(),
    {
        match &mut self.hasher {
            Some(h) => sha1_update(h, buf),
            None => {},
        }
        self.length = self.length + buf.len() as u64;
        self.fed = Ghost(self.fed@ + buf@);
    }

    /// The number of bytes fed.
    pub fn get_length(&self) -> (r: u64)
        requires
            self.wf(),
        ensures
            r == self.consumed().len(),
    {
        self.length
    }

    /// The SHA-1 of the bytes fed, as upper-case hex; only the first call
    /// yields it.
    pub fn get_sha1(&mut self) -> (r: Result<String, HashError>)
        requires
            old(self).wf(),
        ensures
            final(self).wf(),
            final(self).finalized(),
            final(self).consumed() == old(self).consumed(),
            !old(self).finalized() ==> (r matches Ok(s) && s@ == upper_hex(sha1_digest_of(old(self).consumed()))),
            old(self).finalized() ==> r == Err::<String, HashError>(HashError::AlreadyFinalized),
    {
        match self.hasher.take() {
            Some(h) => {
                let d = sha1_finalize(h);
                Ok(to_upper_hex(d.as_slice()))
            },
            None => Err(HashError::AlreadyFinalized),
        }
    }
}

} // verus!

verus! {

pub open spec fn lower_hex_chars() -> Seq<char> {
    seq!['0', '1', '2', '3', '4', '5', '6', '7', '8', '9', 'a', 'b', 'c', 'd', 'e', 'f']
}

/// Two lower-case hex digits per byte, high nibble first.
pub open spec fn lower_hex(b: Seq<u8>) -> Seq<char>
    decreases b.len(),
{
    if b.len() == 0 {
        Seq::empty()
    } else {
        lower_hex(b.drop_last()) + seq![lower_hex_chars()[(b.last() / 16) as int], lower_hex_chars()[(b.last() % 16) as int]]
    }
}

fn lower_hex_digit(n: u8) -> (r: &'static str)
    requires
        n < 16,
    ensures
        r@ == seq![lower_hex_chars()[n as int]],
{
    match n {
        0 => {
            proof { reveal_strlit("0"); }
            "0"
        },
        1 => {
            proof { reveal_strlit("1"); }
            "1"
        },
        2 => {
            proof { reveal_strlit("2"); }
            "2"
        },
        3 => {
            proof { reveal_strlit("3"); }
            "3"
        },
        4 => {
            proof { reveal_strlit("4"); }
            "4"
        },
        5 => {
            proof { reveal_strlit("5"); }
            "5"
        },
        6 => {
            proof { reveal_strlit("6"); }
            "6"
        },
        7 => {
            proof { reveal_strlit("7"); }
            "7"
        },
        8 => {
            proof { reveal_strlit("8"); }
            "8"
        },
        9 => {
            proof { reveal_strlit("9"); }
            "9"
        },
        10 => {
            proof { reveal_strlit("a"); }
            "a"
        },
        11 => {
            proof { reveal_strlit("b"); }
            "b"
        },
        12 => {
            proof { reveal_strlit("c"); }
            "c"
        },
        13 => {
            proof { reveal_strlit("d"); }
            "d"
        },
        14 => {
            proof { reveal_strlit("e"); }
            "e"
        },
        _ => {
            proof { reveal_strlit("f"); }
            "f"
        },
    }
}

/// Formats bytes as lower-case hex.
pub fn to_lower_hex(b: &[u8]) -> (r: String)
    ensures
        r@ == lower_hex(b@),
{
    let mut s = String::new();
    let mut i: usize = 0;
    while i < b.len()
        invariant
            i <= b@.len(),
            s@ == lower_hex(b@.subrange(0, i as int)),
        decreases b@.len() - i,
    {
        proof {
            assert(b@.subrange(0, i as int + 1).drop_last() =~= b@.subrange(0, i as int));
        }
        s.append(lower_hex_digit(b[i] / 16));
        s.append(lower_hex_digit(b[i] % 16));
        i = i + 1;
    }
    assert(b@.subrange(0, b@.len() as int) =~= b@);
    s
}

impl Sha1Readr {
    /// The SHA-1 of the bytes fed, as lower-case hex, the form in which a
    /// local file's hash is reported; only the first request for a digest
    /// yields it.
    pub fn get_sha1_lower(&mut self) -> (r: Result<String, HashError>)
        requires
            old(self).wf(),
        ensures
            final(self).wf(),
            final(self).finalized(),
            final(self).consumed() == old(self).consumed(),
            !old(self).finalized() ==> (r matches Ok(s) && s@ == lower_hex(sha1_digest_of(old(self).consumed()))),
            old(self).finalized() ==> r == Err::<String, HashError>(HashError::AlreadyFinalized),
    {
        match self.hasher.take() {
            Some(h) => {
                let d = sha1_finalize(h);
                Ok(to_lower_hex(d.as_slice()))
            },
            None => Err(HashError::AlreadyFinalized),
        }
    }
}

} // verus!
