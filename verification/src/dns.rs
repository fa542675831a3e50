use vstd::prelude::*;

verus! {

/// The question names that a DNS message parses into, rendered as
/// dot-separated labels, or nothing when the bytes do not parse as a DNS
/// message. The result is a function of the payload bytes alone.
pub uninterp spec fn dns_questions_of(payload: Seq<u8>) -> Option<Seq<Seq<char>>>;

/// Relies on simple_dns::Packet::parse, which parses a DNS message out of a
/// byte slice deterministically, and on simple_dns::Name's dotted-label
/// rendering, for the question names of the parsed message.
#[verifier::external_body]
pub(crate) fn dns_question_names(payload: &[u8]) -> (r: Option<Vec<String>>)
    ensures
        (r is Some) == (dns_questions_of(payload@) is Some),
        r matches Some(names) ==> names@.len() == dns_questions_of(payload@)->0.len() && forall|
            i: int,
        |
            0 <= i < names@.len() ==> (#[trigger] names@[i])@ == dns_questions_of(payload@)->0[i],
{
    match simple_dns::Packet::parse(payload) {
        Ok(packet) => Some(
            packet.questions.iter().map(|question| question.qname.to_string()).collect(),
        ),
        Err(_) => None,
    }
}

} // verus!
