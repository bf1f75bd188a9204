//! Environment entries handed to a prepared command: a name is either
//! inherited from the parent process or defined literally.

use vstd::prelude::*;

use crate::views::{group_views_of, views_of};

verus! {

broadcast use group_views_of;

/// How the variable gets its value.
#[derive(Clone, Debug)]
pub enum EnvSpecValue {
    INHERIT,
    DEFINE(String),
}

/// The mathematical value of an `EnvSpecValue`.
pub enum EnvValV {
    Inherit,
    Define(Seq<char>),
}

impl View for EnvSpecValue {
    type V = EnvValV;

    closed spec fn view(&self) -> EnvValV {
        match self {
            EnvSpecValue::INHERIT => EnvValV::Inherit,
            EnvSpecValue::DEFINE(s) => EnvValV::Define(s@),
        }
    }
}

/// One environment entry of a task.
#[derive(Clone, Debug)]
pub struct EnvSpec {
    name: String,
    value: EnvSpecValue,
}

/// The mathematical value of an `EnvSpec`.
pub struct EnvSpecV {
    pub name: Seq<char>,
    pub value: EnvValV,
}

impl View for EnvSpec {
    type V = EnvSpecV;

    closed spec fn view(&self) -> EnvSpecV {
        EnvSpecV { name: self.name@, value: self.value@ }
    }
}

impl EnvSpec {
    /// An entry that sets `name` to `value` literally.
    pub fn define(name: String, value: String) -> (r: Self)
        ensures
            r@.name == name@,
            r@.value == EnvValV::Define(value@),
    {
        Self { name, value: EnvSpecValue::DEFINE(value) }
    }

    /// An entry that copies `name` from the parent environment when set.
    pub fn inherit(name: String) -> (r: Self)
        ensures
            r@.name == name@,
            r@.value == EnvValV::Inherit,
    {
        Self { name, value: EnvSpecValue::INHERIT }
    }

    pub fn name(&self) -> (r: &str)
        ensures
            r@ == self@.name,
    {
        self.name.as_str()
    }

    pub fn value(&self) -> (r: &EnvSpecValue)
        ensures
            r@ == self@.value,
    {
        &self.value
    }

    /// A copy whose value equals this one.
    pub fn duplicate(&self) -> (r: EnvSpec)
        ensures
            r@ == self@,
    {
        let value = match &self.value {
            EnvSpecValue::INHERIT => EnvSpecValue::INHERIT,
            EnvSpecValue::DEFINE(s) => EnvSpecValue::DEFINE(s.clone()),
        };
        EnvSpec { name: self.name.clone(), value }
    }
}

/// Duplicate a whole environment list.
pub fn duplicate_env(env: &Vec<EnvSpec>) -> (r: Vec<EnvSpec>)
    ensures
        views_of(r@) == views_of(env@),
{
    let mut out: Vec<EnvSpec> = Vec::new();
    let n = env.len();
    let mut i: usize = 0;
    while i < n
        invariant
            i <= n,
            n == env@.len(),
            views_of(out@) =~= views_of(env@).take(i as int),
        decreases n - i,
    {
        out.push(env[i].duplicate());
        proof {
            assert(views_of(out@) =~= views_of(env@).take(i + 1));
        }
        i += 1;
    }
    proof {
        assert(views_of(env@).take(n as int) =~= views_of(env@));
    }
    out
}

} // verus!
