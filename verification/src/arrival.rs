//! What an identifier reads and what it presents: an arrival, with how it
//! came and the properties the transport put on it, and the claim made of it.

use vstd::prelude::*;
use crate::text::same_text;

verus! {

/// How an arrival came: pushed to us by a sender that connected, detected in
/// a place we watch, or picked up on a schedule.
#[derive(Clone, Copy, Debug, PartialEq, Eq, Structural)]
pub enum Arriving {
    Pushed,
    Detected,
    Scheduled,
}

/// The properties as text: each name with its value.
pub open spec fn property_texts(p: Seq<(String, String)>) -> Seq<(Seq<char>, Seq<char>)> {
    p.map_values(|pair: (String, String)| (pair.0@, pair.1@))
}

/// The value of the first property with this name.
pub open spec fn property_of(p: Seq<(Seq<char>, Seq<char>)>, name: Seq<char>) -> Option<Seq<char>>
    decreases p.len(),
{
    if p.len() == 0 {
        None
    } else {
        match property_of(p.drop_last(), name) {
            Some(v) => Some(v),
            None => if p.last().0 == name {
                Some(p.last().1)
            } else {
                None
            },
        }
    }
}

/// What an arrival is to an identifier: how it came and its properties.
pub struct ArrivalView {
    pub arriving: Arriving,
    pub properties: Seq<(Seq<char>, Seq<char>)>,
}

/// An arrival on a stream as the transport hands it over: how it came, and
/// the properties the transport put on it (`peer.address`, headers).
pub struct StreamArrival<'a> {
    arriving: Arriving,
    properties: &'a [(String, String)],
}

impl<'a> View for StreamArrival<'a> {
    type V = ArrivalView;

    closed spec fn view(&self) -> ArrivalView {
        ArrivalView { arriving: self.arriving, properties: property_texts(self.properties@) }
    }
}

impl<'a> StreamArrival<'a> {
    /// An arrival that came this way, with these properties.
    pub fn new(arriving: Arriving, properties: &'a [(String, String)]) -> (a: Self)
        ensures
            a@ == (ArrivalView { arriving, properties: property_texts(properties@) }),
    {
        StreamArrival { arriving, properties }
    }

    /// How the arrival came.
    pub fn arriving(&self) -> (r: Arriving)
        ensures
            r == self@.arriving,
    {
        self.arriving
    }

    /// The value of the first property with this name.
    pub fn property(&self, name: &str) -> (r: Option<&str>)
        ensures
            match r {
                Some(v) => property_of(self@.properties, name@) == Some(v@),
                None => property_of(self@.properties, name@) is None,
            },
    {
        let ghost p = property_texts(self.properties@);
        let mut i: usize = 0;
        while i < self.properties.len()
            invariant
                i <= self.properties@.len(),
                p == property_texts(self.properties@),
                property_of(p.take(i as int), name@) is None,
            decreases self.properties.len() - i,
        {
            assert(p.take(i + 1).drop_last() =~= p.take(i as int));
            let pair = &self.properties[i];
            if same_text(pair.0.as_str(), name) {
                proof {
                    lemma_property_of_prefix(p, i + 1, name@);
                }
                return Some(pair.1.as_str());
            }
            i = i + 1;
        }
        assert(p.take(self.properties@.len() as int) =~= p);
        None
    }
}

/// A property found within a prefix is the one found in the whole.
proof fn lemma_property_of_prefix(p: Seq<(Seq<char>, Seq<char>)>, n: int, name: Seq<char>)
    requires
        0 <= n <= p.len(),
        property_of(p.take(n), name) is Some,
    ensures
        property_of(p, name) == property_of(p.take(n), name),
    decreases p.len() - n,
{
    if n < p.len() {
        assert(p.take(n + 1).drop_last() =~= p.take(n));
        lemma_property_of_prefix(p, n + 1, name);
    } else {
        assert(p.take(n) =~= p);
    }
}

/// How a claim was made: the mechanism's name.
#[derive(Clone, Copy, Debug, PartialEq, Eq)]
pub struct Mechanism {
    name: &'static str,
}

impl View for Mechanism {
    type V = Seq<char>;

    closed spec fn view(&self) -> Seq<char> {
        self.name@
    }
}

impl Mechanism {
    /// Identification by the peer's IP address.
    pub fn ip() -> (m: Mechanism)
        ensures
            m@ == "ip"@,
    {
        Mechanism { name: "ip" }
    }

    /// The mechanism's name.
    pub fn name(&self) -> (n: &'static str)
        ensures
            n@ == self@,
    {
        self.name
    }
}

/// What a claim is: the mechanism's name, the claimed value, and the
/// evidence, each name with its value, in order.
pub struct PresentedView {
    pub mechanism: Seq<char>,
    pub value: Seq<char>,
    pub evidence: Seq<(Seq<char>, Seq<char>)>,
}

/// A claim an identifier presents, passed: who the arrival says it is, by
/// which mechanism, and the evidence behind it.
#[derive(Clone, Debug)]
pub struct Presented {
    pub mechanism: Mechanism,
    pub value: String,
    pub evidence: Vec<(String, String)>,
}

impl View for Presented {
    type V = PresentedView;

    open spec fn view(&self) -> PresentedView {
        PresentedView {
            mechanism: self.mechanism@,
            value: self.value@,
            evidence: property_texts(self.evidence@),
        }
    }
}

impl Presented {
    /// A passed claim of `value` by `mechanism`, with no evidence.
    pub fn passed(mechanism: Mechanism, value: String) -> (p: Presented)
        ensures
            p@ == (PresentedView {
                mechanism: mechanism@,
                value: value@,
                evidence: Seq::empty(),
            }),
    {
        let p = Presented { mechanism, value, evidence: Vec::new() };
        assert(p@.evidence =~= Seq::empty());
        p
    }

    /// The claim with one more piece of evidence after the others.
    pub fn with_evidence(self, name: &str, value: &str) -> (p: Presented)
        ensures
            p@ == (PresentedView {
                mechanism: self@.mechanism,
                value: self@.value,
                evidence: self@.evidence.push((name@, value@)),
            }),
    {
        let mut p = self;
        let ghost before = p.evidence@;
        p.evidence.push((name.to_string(), value.to_string()));
        assert(property_texts(p.evidence@) =~= property_texts(before).push((name@, value@)));
        p
    }
}

} // verus!
