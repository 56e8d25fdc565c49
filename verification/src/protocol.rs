//! The two worlds of a protocol and values kept per world.

use vstd::prelude::*;
use vstd::string::*;
use vstd::std_specs::convert::TryFromSpecImpl;

verus! {

/// The world that a run of the protocol belongs to.
#[derive(Clone, Copy, Debug, PartialEq, Eq, Hash, Structural)]
pub enum ProtocolType {
    Real,
    Ideal,
}

/// The name of a world, as a process is named after it.
pub open spec fn protocol_name(p: ProtocolType) -> Seq<char> {
    match p {
        ProtocolType::Real => "Real"@,
        ProtocolType::Ideal => "Ideal"@,
    }
}

impl ProtocolType {
    /// The name of the world: `Real` or `Ideal`.
    pub fn to_string(&self) -> (r: String)
        ensures
            r@ == protocol_name(*self),
    {
        match self {
            ProtocolType::Real => String::from_str("Real"),
            ProtocolType::Ideal => String::from_str("Ideal"),
        }
    }
}

/// The message given when a name is no world's name.
pub open spec fn parse_failure_text(s: Seq<char>) -> Seq<char> {
    "Failed to parse string '"@ + s + "' for enum ProtocolType"@
}

impl ProtocolType {
    /// The world with the name `s`, or a message saying that there is none.
    pub fn from_name(s: &str) -> (r: Result<ProtocolType, String>)
        ensures
            forall|p: ProtocolType| s@ == protocol_name(p) ==> r == Ok::<ProtocolType, String>(p),
            r matches Ok(p) ==> s@ == protocol_name(p),
            r matches Err(m) ==> m@ == parse_failure_text(s@),
    {
        proof {
            lemma_protocol_names_distinct();
        }
        if crate::strings::str_equal(s, "Real") {
            Ok(ProtocolType::Real)
        } else if crate::strings::str_equal(s, "Ideal") {
            Ok(ProtocolType::Ideal)
        } else {
            let mut m = String::from_str("Failed to parse string '");
            m.append(s);
            m.append("' for enum ProtocolType");
            Err(m)
        }
    }
}

impl std::str::FromStr for ProtocolType {
    type Err = String;

    fn from_str(s: &str) -> (r: Result<Self, Self::Err>)
        ensures
            forall|p: ProtocolType| s@ == protocol_name(p) ==> r == Ok::<ProtocolType, String>(p),
            r matches Ok(p) ==> s@ == protocol_name(p),
            r matches Err(m) ==> m@ == parse_failure_text(s@),
    {
        ProtocolType::from_name(s)
    }
}

// The `ensures` of each `try_from` below states its result: the world whose
// name the text is, or an error whose text is `parse_failure_text`.  The
// trait's `try_from_spec` would have to name the error as one particular
// `String` value, while only its text is fixed, so these impls leave
// `obeys_try_from_spec` false and the trait's own clause unused.
impl<'a> TryFromSpecImpl<&'a str> for ProtocolType {
    open spec fn obeys_try_from_spec() -> bool {
        false
    }

    open spec fn try_from_spec(s: &'a str) -> Result<Self, String> {
        arbitrary()
    }
}

impl TryFromSpecImpl<String> for ProtocolType {
    open spec fn obeys_try_from_spec() -> bool {
        false
    }

    open spec fn try_from_spec(s: String) -> Result<Self, String> {
        arbitrary()
    }
}

impl<'a> TryFrom<&'a str> for ProtocolType {
    type Error = String;

    fn try_from(s: &'a str) -> (r: Result<Self, Self::Error>)
        ensures
            forall|p: ProtocolType| s@ == protocol_name(p) ==> r == Ok::<ProtocolType, String>(p),
            r matches Ok(p) ==> s@ == protocol_name(p),
            r matches Err(m) ==> m@ == parse_failure_text(s@),
    {
        ProtocolType::from_name(s)
    }
}

impl TryFrom<String> for ProtocolType {
    type Error = String;

    fn try_from(s: String) -> (r: Result<Self, Self::Error>)
        ensures
            forall|p: ProtocolType| s@ == protocol_name(p) ==> r == Ok::<ProtocolType, String>(p),
            r matches Ok(p) ==> s@ == protocol_name(p),
            r matches Err(m) ==> m@ == parse_failure_text(s@),
    {
        ProtocolType::from_name(s.as_str())
    }
}

/// A value for each world, where one has been set.
pub struct ProtocolMap<V> {
    pub real: Option<V>,
    pub ideal: Option<V>,
}

impl<V> ProtocolMap<V> {
    /// The value set for world `p`.
    pub open spec fn lookup(self, p: ProtocolType) -> Option<V> {
        match p {
            ProtocolType::Real => self.real,
            ProtocolType::Ideal => self.ideal,
        }
    }

    /// No value for either world.
    pub fn new() -> (r: Self)
        ensures
            r.lookup(ProtocolType::Real) is None,
            r.lookup(ProtocolType::Ideal) is None,
    {
        ProtocolMap { real: None, ideal: None }
    }

    /// The value set for world `p`.
    pub fn get(&self, p: &ProtocolType) -> (r: Option<&V>)
        ensures
            match r {
                Some(v) => self.lookup(*p) == Some(*v),
                None => self.lookup(*p) is None,
            },
    {
        match p {
            ProtocolType::Real => self.real.as_ref(),
            ProtocolType::Ideal => self.ideal.as_ref(),
        }
    }

    /// Sets the value of world `p`.
    pub fn insert(&mut self, p: ProtocolType, v: V)
        ensures
            final(self).lookup(p) == Some(v),
            forall|q: ProtocolType| q != p ==> final(self).lookup(q) == old(self).lookup(q),
    {
        match p {
            ProtocolType::Real => {
                self.real = Some(v);
            },
            ProtocolType::Ideal => {
                self.ideal = Some(v);
            },
        }
    }
}

/// The two worlds have different names.
pub proof fn lemma_protocol_names_distinct()
    ensures
        protocol_name(ProtocolType::Real) != protocol_name(ProtocolType::Ideal),
{
    reveal_strlit("Real");
    reveal_strlit("Ideal");
    assert(protocol_name(ProtocolType::Real).len() != protocol_name(ProtocolType::Ideal).len());
}

/// Reading back the name of a world gives the world.
pub proof fn lemma_name_round_trip(p: ProtocolType, r: Result<ProtocolType, String>, s: Seq<char>)
    requires
        s == protocol_name(p),
        forall|q: ProtocolType| s == protocol_name(q) ==> r == Ok::<ProtocolType, String>(q),
    ensures
        r == Ok::<ProtocolType, String>(p),
{
}

} // verus!
