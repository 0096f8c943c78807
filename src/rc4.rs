//! The RC4 stream cipher: key scheduling and keystream generation.
use vstd::prelude::*;
use vstd::array::*;

verus! {

/// The full cipher state: a 256-byte permutation and two byte counters.
#[derive(Debug)]
pub struct Rc4 {
    s: [u8; 256],
    i: u8,
    j: u8,
}

/// The state of the cipher as plain values.
pub struct Rc4State {
    pub s: Seq<u8>,
    pub i: u8,
    pub j: u8,
}

/// `s` with the entries at `a` and `b` exchanged.
pub open spec fn swap_at(s: Seq<u8>, a: int, b: int) -> Seq<u8> {
    s.update(a, s[b]).update(b, s[a])
}

/// The identity permutation of the 256 byte values.
pub open spec fn identity_perm() -> Seq<u8> {
    Seq::new(256, |k: int| k as u8)
}

/// Rounds `i..256` of the key schedule, from permutation `s` and counter `j`.
pub open spec fn ksa_rounds(s: Seq<u8>, j: u8, i: nat, key: Seq<u8>) -> Seq<u8>
    recommends
        s.len() == 256,
        key.len() > 0,
    decreases 256 - i,
{
    if i >= 256 || key.len() == 0 {
        s
    } else {
        let j2 = ((j as int + s[i as int] as int + key[(i % key.len()) as int] as int) % 256) as u8;
        ksa_rounds(swap_at(s, i as int, j2 as int), j2, i + 1, key)
    }
}

/// The permutation that the key schedule derives from `key`.
pub open spec fn key_schedule(key: Seq<u8>) -> Seq<u8> {
    ksa_rounds(identity_perm(), 0, 0, key)
}

/// One step of the keystream generator: the next state and the byte it yields.
pub open spec fn prga_step(st: Rc4State) -> (Rc4State, u8)
    recommends
        st.s.len() == 256,
{
    let i = ((st.i as int + 1) % 256) as u8;
    let j = ((st.j as int + st.s[i as int] as int) % 256) as u8;
    let s = swap_at(st.s, i as int, j as int);
    let k = s[((s[i as int] as int + s[j as int] as int) % 256)];
    (Rc4State { s, i, j }, k)
}

/// The first `n` keystream bytes from state `st`, and the state after them.
pub open spec fn keystream(st: Rc4State, n: nat) -> (Seq<u8>, Rc4State)
    decreases n,
{
    if n == 0 {
        (Seq::empty(), st)
    } else {
        let (bytes, mid) = keystream(st, (n - 1) as nat);
        let (next, k) = prga_step(mid);
        (bytes.push(k), next)
    }
}

/// `data` XORed bytewise with `stream`.
pub open spec fn xor_bytes(data: Seq<u8>, stream: Seq<u8>) -> Seq<u8>
    recommends
        data.len() <= stream.len(),
{
    Seq::new(data.len(), |k: int| data[k] ^ stream[k])
}

proof fn lemma_keystream_len(st: Rc4State, n: nat)
    requires
        st.s.len() == 256,
    ensures
        keystream(st, n).0.len() == n,
        keystream(st, n).1.s.len() == 256,
    decreases n,
{
    if n > 0 {
        lemma_keystream_len(st, (n - 1) as nat);
    }
}

/// XORing with the same keystream twice gives the data back, so the same
/// call both encrypts and decrypts.
pub proof fn lemma_xor_twice(data: Seq<u8>, stream: Seq<u8>)
    requires
        data.len() <= stream.len(),
    ensures
        xor_bytes(xor_bytes(data, stream), stream) == data,
{
    assert forall|k: int| 0 <= k < data.len() implies (data[k] ^ stream[k]) ^ stream[k] == data[k] by {
        let a = data[k];
        let b = stream[k];
        assert((a ^ b) ^ b == a) by (bit_vector);
    }
    assert(xor_bytes(xor_bytes(data, stream), stream) =~= data);
}

impl View for Rc4 {
    type V = Rc4State;

    closed spec fn view(&self) -> Rc4State {
        Rc4State { s: self.s@, i: self.i, j: self.j }
    }
}

impl Rc4 {
    /// Initializes a cipher from a key of 5 to 256 bytes (40 to 2048 bits).
    pub fn new(key: &[u8]) -> (r: Rc4)
        requires
            5 <= key@.len() <= 256,
        ensures
            r@.s == key_schedule(key@),
            r@.i == 0,
            r@.j == 0,
    {
        let mut rc4 = Rc4 { s: [0u8; 256], i: 0, j: 0 };
        let mut k: usize = 0;
        while k < 256
            invariant
                k <= 256,
                rc4.s@.len() == 256,
                rc4.i == 0,
                rc4.j == 0,
                forall|m: int| 0 <= m < k ==> rc4.s@[m] == m as u8,
            decreases 256 - k,
        {
            rc4.s[k] = k as u8;
            k = k + 1;
        }
        assert(rc4.s@ =~= identity_perm());
        let mut j: u8 = 0;
        let mut i: usize = 0;
        while i < 256
            invariant
                i <= 256,
                5 <= key@.len() <= 256,
                rc4.s@.len() == 256,
                rc4.i == 0,
                rc4.j == 0,
                ksa_rounds(rc4.s@, j, i as nat, key@) == key_schedule(key@),
            decreases 256 - i,
        {
            let ghost s0 = rc4.s@;
            let ghost j0 = j;
            let si = rc4.s[i];
            let ki = key[i % key.len()];
            j = j.wrapping_add(si).wrapping_add(ki);
            let sj = rc4.s[j as usize];
            rc4.s[i] = sj;
            rc4.s[j as usize] = si;
            assert(j as int == (j0 as int + s0[i as int] as int + key@[(i as nat % key@.len()) as int] as int) % 256);
            assert(rc4.s@ =~= swap_at(s0, i as int, j as int));
            i = i + 1;
        }
        rc4
    }

    /// Outputs the next byte of the keystream.
    pub fn prga_next(&mut self) -> (k: u8)
        ensures
            (final(self)@, k) == prga_step(old(self)@),
    {
        self.i = self.i.wrapping_add(1);
        self.j = self.j.wrapping_add(self.s[self.i as usize]);
        let si = self.s[self.i as usize];
        let sj = self.s[self.j as usize];
        self.s[self.i as usize] = sj;
        self.s[self.j as usize] = si;
        let idx = self.s[self.i as usize].wrapping_add(self.s[self.j as usize]);
        let k = self.s[idx as usize];
        proof {
            let ghost st = prga_step(old(self)@);
            assert(self.s@ =~= st.0.s);
        }
        k
    }

    /// Stateful, in-place en/decryption: XORs `data` with the next keystream bytes.
    pub fn apply_keystream(&mut self, data: &mut [u8])
        ensures
            final(data)@ == xor_bytes(old(data)@, keystream(old(self)@, old(data)@.len()).0),
            final(self)@ == keystream(old(self)@, old(data)@.len()).1,
    {
        let n = data.len();
        let ghost st0 = self@;
        let ghost d0 = data@;
        let mut k: usize = 0;
        while k < n
            invariant
                k <= n,
                n == d0.len(),
                data@.len() == n,
                self@ == keystream(st0, k as nat).1,
                st0.s.len() == 256,
                forall|m: int| 0 <= m < k ==> data@[m] == d0[m] ^ keystream(st0, k as nat).0[m],
                forall|m: int| k <= m < n ==> data@[m] == d0[m],
            decreases n - k,
        {
            proof {
                lemma_keystream_len(st0, k as nat);
                lemma_keystream_len(st0, (k + 1) as nat);
            }
            let b = self.prga_next();
            let x = data[k] ^ b;
            data[k] = x;
            k = k + 1;
        }
        proof {
            lemma_keystream_len(st0, n as nat);
        }
        assert(data@ =~= xor_bytes(d0, keystream(st0, n as nat).0));
    }

    /// Stateless, in-place en/decryption with a fresh cipher for `key`.
    pub fn apply_keystream_static(key: &[u8], data: &mut [u8])
        requires
            5 <= key@.len() <= 256,
        ensures
            final(data)@ == xor_bytes(
                old(data)@,
                keystream(Rc4State { s: key_schedule(key@), i: 0, j: 0 }, old(data)@.len()).0,
            ),
    {
        let mut rc4 = Rc4::new(key);
        rc4.apply_keystream(data);
    }
}

} // verus!
