use vstd::prelude::*;

verus! {

/// How alpha participates in colour averaging.
#[derive(Clone, Copy, Debug, PartialEq, Eq, Structural)]
pub enum AlphaPolicy {
    /// Alpha excluded; every pixel contributes equally.
    Ignore,
    /// RGB weighted by `a / 255`.
    Weighted,
}

impl Default for AlphaPolicy {
    fn default() -> (r: AlphaPolicy)
        ensures
            r == AlphaPolicy::Ignore,
    {
        AlphaPolicy::Ignore
    }
}

/// Maps the alpha discriminant used by the script bridges:
/// `0` is `Ignore`, `1` is `Weighted`; anything else is refused and handed
/// back as the error.
pub fn u32_to_alpha(v: u32) -> (r: Result<AlphaPolicy, u32>)
    ensures
        v == 0 ==> r == Ok::<AlphaPolicy, u32>(AlphaPolicy::Ignore),
        v == 1 ==> r == Ok::<AlphaPolicy, u32>(AlphaPolicy::Weighted),
        v > 1 ==> r == Err::<AlphaPolicy, u32>(v),
{
    match v {
        0 => Ok(AlphaPolicy::Ignore),
        1 => Ok(AlphaPolicy::Weighted),
        _ => Err(v),
    }
}

} // verus!
