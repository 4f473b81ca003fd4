//! Fact ingestion: Turtle parsing through the `rdf` crate, and the
//! throughput pre-filter for raw property-fact lines through the `regex`
//! crate.  Both outside calls stand behind trusted wrappers; everything
//! downstream of them is verified against the named results.

use vstd::prelude::*;
use crate::index::Fact;

verus! {

#[verifier::external_type_specification]
#[verifier::external_body]
pub struct ExGraph(rdf::graph::Graph);

/// The triples a graph holds, in insertion order, each node read as text:
/// a URI node as its URI, a literal node as its literal text, a blank node
/// as its id.
pub uninterp spec fn graph_triples(g: rdf::graph::Graph) -> Seq<(Seq<char>, Seq<char>, Seq<char>)>;

/// The triples that a Turtle document describes, in document order, nodes
/// read as text.
pub uninterp spec fn turtle_triples(s: Seq<char>) -> Seq<(Seq<char>, Seq<char>, Seq<char>)>;

/// The Turtle parser accepts the document: a function of the document text
/// alone, since the parser reads nothing but its input.
pub uninterp spec fn turtle_ok(s: Seq<char>) -> bool;

/// Relies on rdf's `TurtleParser::decode`: a pure function of the document
/// text that parses Turtle into a graph holding exactly the document's
/// triples, and fails exactly on the documents it rejects.
#[verifier::external_body]
fn decode_turtle(content: &str) -> (r: Option<rdf::graph::Graph>)
    ensures
        r is Some <==> turtle_ok(content@),
        r matches Some(g) ==> graph_triples(g) == turtle_triples(content@),
{
    let mut parser = rdf::reader::turtle_parser::TurtleParser::from_string(content.to_string());
    match rdf::reader::rdf_parser::RdfParser::decode(&mut parser) {
        Ok(g) => Some(g),
        Err(_) => None,
    }
}

/// Relies on rdf's `Graph::triples_iter`: hands out the graph's triples in
/// order; each node is converted to its text by its variant.
#[verifier::external_body]
fn graph_facts(g: &rdf::graph::Graph) -> (r: Vec<Fact>)
    ensures
        r@.map_values(|f: Fact| f@) == graph_triples(*g),
{
    let text = |n: &rdf::node::Node| -> String {
        match n {
            rdf::node::Node::UriNode { uri } => uri.to_string().clone(),
            rdf::node::Node::LiteralNode { literal, .. } => literal.clone(),
            rdf::node::Node::BlankNode { id } => id.clone(),
        }
    };
    g.triples_iter().map(
        |t| Fact {
            subject: text(t.subject()),
            predicate: text(t.predicate()),
            object: text(t.object()),
        },
    ).collect()
}

/// Parses a Turtle document into its facts: exactly the document's triples
/// whenever the parser accepts the document, `None` exactly when it does
/// not.
pub fn parse_turtle(content: &str) -> (r: Option<Vec<Fact>>)
    ensures
        r is Some <==> turtle_ok(content@),
        r matches Some(v) ==> v@.map_values(|f: Fact| f@) == turtle_triples(content@),
{
    match decode_turtle(content) {
        Option::Some(g) => Some(graph_facts(&g)),
        Option::None => None,
    }
}

/// Whether `line` matches the regular expression `pattern`: a function of
/// the two strings alone.
pub uninterp spec fn regex_match(pattern: Seq<char>, line: Seq<char>) -> bool;

/// The regex engine accepts `pattern` as a valid regular expression: a
/// function of the pattern alone.
pub uninterp spec fn regex_ok(pattern: Seq<char>) -> bool;

/// Relies on regex's `Regex::new` and `Regex::is_match`: whether `line`
/// matches `pattern`; `None` exactly when the pattern is not a valid
/// regular expression.
#[verifier::external_body]
fn regex_is_match(pattern: &str, line: &str) -> (r: Option<bool>)
    ensures
        r is Some <==> regex_ok(pattern@),
        r matches Some(b) ==> b == regex_match(pattern@, line@),
{
    match regex::Regex::new(pattern) {
        Ok(re) => Some(re.is_match(line)),
        Err(_) => None,
    }
}

/// The shape a raw property-fact line must have to be worth parsing:
/// resource subject, property predicate, quoted numeric object with a
/// language tag or a datatype suffix.
pub open spec fn spec_property_line_pattern() -> Seq<char> {
    "^<http://dbpedia\\.org/resource/.+> <http://dbpedia\\.org/property/.+> \"[0-9.]+\"(@en|\\^\\^<http://(dbpedia\\.org|www\\.w3\\.org)/.+>) \\.$"@
}

fn property_line_pattern() -> (r: &'static str)
    ensures
        r@ == spec_property_line_pattern(),
{
    "^<http://dbpedia\\.org/resource/.+> <http://dbpedia\\.org/property/.+> \"[0-9.]+\"(@en|\\^\\^<http://(dbpedia\\.org|www\\.w3\\.org)/.+>) \\.$"
}

/// Keeps only the raw property-fact lines that match the expected line
/// shape: the throughput pre-filter applied before Turtle parsing.  `None`
/// exactly when the regex engine rejects the fixed pattern.
pub fn prefilter_property_lines(lines: &Vec<String>) -> (r: Option<Vec<String>>)
    ensures
        r is Some <==> regex_ok(spec_property_line_pattern()),
        r matches Some(v) ==> v@.map_values(|l: String| l@) == lines@.map_values(
            |l: String| l@,
        ).filter(|l: Seq<char>| regex_match(spec_property_line_pattern(), l)),
{
    // one probe establishes whether the engine accepts the fixed pattern,
    // also when there is no line to test
    if regex_is_match(property_line_pattern(), "").is_none() {
        return None;
    }
    let ghost pred = |l: Seq<char>| regex_match(spec_property_line_pattern(), l);
    let mut out: Vec<String> = Vec::new();
    let mut i: usize = 0;
    proof {
        reveal(Seq::filter);
        assert(lines@.take(0).map_values(|l: String| l@) =~= Seq::<Seq<char>>::empty());
        assert(out@.map_values(|l: String| l@) =~= lines@.take(0).map_values(
            |l: String| l@,
        ).filter(pred));
    }
    while i < lines.len()
        invariant
            i <= lines@.len(),
            regex_ok(spec_property_line_pattern()),
            pred == (|l: Seq<char>| regex_match(spec_property_line_pattern(), l)),
            out@.map_values(|l: String| l@) == lines@.take(i as int).map_values(
                |l: String| l@,
            ).filter(pred),
        decreases lines@.len() - i,
    {
        let line = &lines[i];
        let keep = match regex_is_match(property_line_pattern(), line.as_str()) {
            Option::Some(b) => b,
            Option::None => {
                return None;
            },
        };
        proof {
            reveal(Seq::filter);
            assert(keep == pred(line@));
            let prev = lines@.take(i as int).map_values(|l: String| l@);
            let cur = lines@.take(i as int + 1).map_values(|l: String| l@);
            assert(lines@.take(i as int + 1) =~= lines@.take(i as int).push(lines@[i as int]));
            assert(cur =~= prev.push(line@));
            assert(cur.drop_last() =~= prev);
            assert(cur.last() == line@);
        }
        if keep {
            let ghost old_out = out@;
            out.push(line.clone());
            proof {
                assert(out@.map_values(|l: String| l@) =~= old_out.map_values(
                    |l: String| l@,
                ).push(line@));
            }
        }
        i += 1;
    }
    proof {
        assert(lines@.take(lines@.len() as int) =~= lines@);
    }
    Some(out)
}

} // verus!
