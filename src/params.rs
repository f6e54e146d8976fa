//! The reverberator's control parameters, in host order.

use vstd::prelude::*;

verus! {

/// A control parameter of the reverberator.
#[derive(Clone, Copy, Debug, PartialEq, Eq, Structural)]
pub enum ReverbParam {
    Gain,
    Wet,
    Dry,
    Feedback,
    StereoSeparation,
    Floor,
    Ceiling,
    Prescence,
    Mids,
    Mud,
    Primes,
    Length,
    Phase,
}

/// The position of a parameter in host order.
pub open spec fn param_index(p: ReverbParam) -> nat {
    match p {
        ReverbParam::Gain => 0,
        ReverbParam::Wet => 1,
        ReverbParam::Dry => 2,
        ReverbParam::Feedback => 3,
        ReverbParam::StereoSeparation => 4,
        ReverbParam::Floor => 5,
        ReverbParam::Ceiling => 6,
        ReverbParam::Prescence => 7,
        ReverbParam::Mids => 8,
        ReverbParam::Mud => 9,
        ReverbParam::Primes => 10,
        ReverbParam::Length => 11,
        ReverbParam::Phase => 12,
    }
}

/// The name a host shows for a parameter.
pub open spec fn param_name(p: ReverbParam) -> Seq<char> {
    match p {
        ReverbParam::Gain => "Gain"@,
        ReverbParam::Wet => "Wet"@,
        ReverbParam::Dry => "Dry"@,
        ReverbParam::Feedback => "Feedback"@,
        ReverbParam::StereoSeparation => "Stereo Separation"@,
        ReverbParam::Floor => "Floor"@,
        ReverbParam::Ceiling => "Ceiling"@,
        ReverbParam::Prescence => "Prescence"@,
        ReverbParam::Mids => "Mids"@,
        ReverbParam::Mud => "Mud"@,
        ReverbParam::Primes => "Primes"@,
        ReverbParam::Length => "Length"@,
        ReverbParam::Phase => "Phase"@,
    }
}

/// The unit a host shows beside a parameter's value.
pub open spec fn param_label(p: ReverbParam) -> Seq<char> {
    match p {
        ReverbParam::Floor | ReverbParam::Ceiling => "Hz"@,
        ReverbParam::Primes | ReverbParam::Phase => ""@,
        _ => "%"@,
    }
}

impl ReverbParam {
    /// The number of parameters.
    pub const VARIANT_COUNT: usize = 13;

    /// The parameter at position `index` in host order, if there is one.
    pub fn from_index(index: usize) -> (r: Option<ReverbParam>)
        ensures
            r is Some <==> index < 13,
            r matches Some(p) ==> param_index(p) == index,
    {
        match index {
            0 => Some(ReverbParam::Gain),
            1 => Some(ReverbParam::Wet),
            2 => Some(ReverbParam::Dry),
            3 => Some(ReverbParam::Feedback),
            4 => Some(ReverbParam::StereoSeparation),
            5 => Some(ReverbParam::Floor),
            6 => Some(ReverbParam::Ceiling),
            7 => Some(ReverbParam::Prescence),
            8 => Some(ReverbParam::Mids),
            9 => Some(ReverbParam::Mud),
            10 => Some(ReverbParam::Primes),
            11 => Some(ReverbParam::Length),
            12 => Some(ReverbParam::Phase),
            _ => None,
        }
    }

    /// The parameter's name.
    pub fn name(&self) -> (r: &'static str)
        ensures
            r@ == param_name(*self),
    {
        match self {
            ReverbParam::Gain => "Gain",
            ReverbParam::Wet => "Wet",
            ReverbParam::Dry => "Dry",
            ReverbParam::Feedback => "Feedback",
            ReverbParam::StereoSeparation => "Stereo Separation",
            ReverbParam::Floor => "Floor",
            ReverbParam::Ceiling => "Ceiling",
            ReverbParam::Prescence => "Prescence",
            ReverbParam::Mids => "Mids",
            ReverbParam::Mud => "Mud",
            ReverbParam::Primes => "Primes",
            ReverbParam::Length => "Length",
            ReverbParam::Phase => "Phase",
        }
    }

    /// The unit of the parameter's value.
    pub fn label(&self) -> (r: &'static str)
        ensures
            r@ == param_label(*self),
    {
        match self {
            ReverbParam::Floor | ReverbParam::Ceiling => "Hz",
            ReverbParam::Primes | ReverbParam::Phase => "",
            _ => "%",
        }
    }
}

} // verus!
