use vstd::prelude::*;

verus! {

/// Maps a function signature to the type of a foreign function of that
/// signature.
pub trait IOToFn {
    type Output;
}

/// Calls a foreign function of the signature `Signature` with the argument
/// tuple `Args`, producing `Res`.
pub trait Caller<Args, Res> {
    type Signature: IOToFn;

    fn call(input: Args, func: &<Self::Signature as IOToFn>::Output) -> Res;
}

} // verus!
