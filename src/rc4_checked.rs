//! An RC4 front end whose constructor reports a bad key length as an error.
use vstd::prelude::*;
use crate::rc4::{key_schedule, Rc4State};

verus! {

/// The shortest accepted key, in bytes (40 bits).
pub const MIN_KEY_LEN: usize = 5;

/// The longest accepted key, in bytes (2048 bits).
pub const MAX_KEY_LEN: usize = 256;

/// Why a key was refused; each variant carries the bound it broke.
#[derive(Debug, Clone, Copy, PartialEq, Eq, Structural)]
pub enum Rc4Error {
    KeyTooShort(usize),
    KeyTooLong(usize),
}

/// An RC4 cipher built through a length-checked constructor.
#[derive(Debug)]
pub struct Rc4 {
    cipher: crate::rc4::Rc4,
}

impl View for Rc4 {
    type V = Rc4State;

    closed spec fn view(&self) -> Rc4State {
        self.cipher@
    }
}

impl Rc4 {
    /// Initializes a cipher, or reports a key shorter than 5 or longer than 256 bytes.
    pub fn new(key: &[u8]) -> (r: Result<Rc4, Rc4Error>)
        ensures
            key@.len() < MIN_KEY_LEN ==> r == Err::<Rc4, Rc4Error>(Rc4Error::KeyTooShort(MIN_KEY_LEN)),
            key@.len() > MAX_KEY_LEN ==> r == Err::<Rc4, Rc4Error>(Rc4Error::KeyTooLong(MAX_KEY_LEN)),
            MIN_KEY_LEN <= key@.len() <= MAX_KEY_LEN <==> r is Ok,
            r matches Ok(c) ==> c@.s == key_schedule(key@) && c@.i == 0 && c@.j == 0,
    {
        if key.len() < MIN_KEY_LEN {
            return Err(Rc4Error::KeyTooShort(MIN_KEY_LEN));
        } else if key.len() > MAX_KEY_LEN {
            return Err(Rc4Error::KeyTooLong(MAX_KEY_LEN));
        }
        Ok(Rc4 { cipher: crate::rc4::Rc4::new(key) })
    }

    /// Stateful, in-place en/decryption: XORs `data` with the next keystream bytes.
    pub fn apply_keystream(&mut self, data: &mut [u8])
        ensures
            final(data)@ == crate::rc4::xor_bytes(old(data)@, crate::rc4::keystream(old(self)@, old(data)@.len()).0),
            final(self)@ == crate::rc4::keystream(old(self)@, old(data)@.len()).1,
    {
        self.cipher.apply_keystream(data);
    }
}

} // verus!
