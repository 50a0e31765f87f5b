use crate::define::BigInt;
use crate::error::FeError;
use crate::utils::rand_utils::RandUtilsRAND;
use vstd::prelude::*;

verus! {

/// What every scheme offers: it encrypts a plaintext, derives a key for a function, and
/// with the key recovers from a ciphertext the value of the function on its plaintext.
pub trait FunctionalEncryption: Sized {
    type CipherText;

    type PlainData;

    type FEKeyData;

    type EvaluationKey;

    /// The key material of the instance is consistent.
    spec fn wf(&self) -> bool;

    /// The plaintext is one that the instance can hold.
    spec fn plain_wf(plain: &Self::PlainData) -> bool;

    /// The function is one that the instance can hold.
    spec fn function_wf(f: &Self::FEKeyData) -> bool;

    /// The ciphertext was made for an instance of this kind.
    spec fn cipher_wf(ct: &Self::CipherText) -> bool;

    /// The key was made by an instance of this kind.
    spec fn key_wf(dk: &Self::EvaluationKey) -> bool;

    /// A new instance, with keys drawn from `rng`.
    fn new(rng: &mut RandUtilsRAND) -> (r: Self)
        ensures
            r.wf(),
    ;

    /// Encrypts `plain` with randomness drawn from `rng`.
    fn encrypt(&self, plain: &Self::PlainData, rng: &mut RandUtilsRAND) -> (r: Result<
        Self::CipherText,
        FeError,
    >)
        requires
            self.wf(),
            Self::plain_wf(plain),
        ensures
            r matches Ok(ct) ==> Self::cipher_wf(&ct),
    ;

    /// Derives the key that evaluates `f`.
    fn derive_fe_key(&self, f: &Self::FEKeyData) -> (r: Result<Self::EvaluationKey, FeError>)
        requires
            self.wf(),
            Self::function_wf(f),
        ensures
            r matches Ok(dk) ==> Self::key_wf(&dk),
    ;

    /// Recovers the value of the function of `dk` on the plaintext of `ct`, where its size
    /// is within what `bound` allows; `None` where the search does not find it.
    fn decrypt(&self, ct: &Self::CipherText, dk: &Self::EvaluationKey, bound: &BigInt) -> (r:
        Result<Option<BigInt>, FeError>)
        requires
            self.wf(),
            Self::cipher_wf(ct),
            Self::key_wf(dk),
    ;
}

} // verus!
