//! The header of an instance text: eight `KEY: value` lines.
use crate::error::{outcome, InputError};
use crate::instance::{Instance, Metric};
use crate::numbers::{parse_usize, spec_parse_usize};
use crate::parser::utils::{
    get_split_line_parts, lemma_next_valid_line, lemma_rest_after_step, next_valid_line,
    nth_valid_line, rest_after, spec_split_line_parts, LineTracker,
};
use crate::text::{str_eq, trim, trim_str};
use vstd::prelude::*;

verus! {

broadcast use vstd::string::group_string_axioms;

/// The entry counts that a header declares.
#[derive(Debug, Clone, Copy, PartialEq, Eq, Structural)]
pub struct Dimensions {
    pub nodes: usize,
    pub subgroups: usize,
    pub clusters: usize,
    pub vehicles: usize,
}

/// What a header holds.
pub struct HeaderView {
    pub name: Seq<char>,
    pub metric: Metric,
    pub dims: Dimensions,
}

pub open spec fn msg_expected_value(key: Seq<char>, found: Seq<char>) -> Seq<char> {
    "Expected header '"@ + key + ": value', but found '"@ + found + "'"@
}

pub open spec fn msg_expected_key(key: Seq<char>, found: Seq<char>) -> Seq<char> {
    "Expected header '"@ + key + "', but found '"@ + found + "'"@
}

pub open spec fn msg_invalid_integer_value(value: Seq<char>) -> Seq<char> {
    "Invalid integer value '"@ + value + "'"@
}

pub open spec fn msg_unknown_metric(value: Seq<char>) -> Seq<char> {
    "Unknown metric: "@ + value
}

/// The value of a `key: value` line.
pub open spec fn string_entry(line: Seq<char>, key: Seq<char>) -> Result<Seq<char>, Seq<char>> {
    let parts = spec_split_line_parts(line);
    if parts.len() < 2 {
        Err(msg_expected_value(key, trim(line)))
    } else if trim(parts[0]) != key {
        Err(msg_expected_key(key, trim(parts[0])))
    } else {
        Ok(trim(parts[1]))
    }
}

/// The unsigned integer value of a `key: value` line.
pub open spec fn usize_entry(line: Seq<char>, key: Seq<char>) -> Result<usize, Seq<char>> {
    match string_entry(line, key) {
        Err(m) => Err(m),
        Ok(v) => match spec_parse_usize(v) {
            Ok(n) => Ok(n as usize),
            Err(_) => Err(msg_invalid_integer_value(v)),
        },
    }
}

/// The metric named by a `key: value` line.
pub open spec fn metric_entry(line: Seq<char>, key: Seq<char>) -> Result<Metric, Seq<char>> {
    match string_entry(line, key) {
        Err(m) => Err(m),
        Ok(v) => if v == "EUC_2D"@ {
            Ok(Metric::Euc2d)
        } else if v == "EUC_3D"@ {
            Ok(Metric::Euc3d)
        } else if v == "MAN_2D"@ {
            Ok(Metric::Man2d)
        } else if v == "MAN_3D"@ {
            Ok(Metric::Man3d)
        } else {
            Err(msg_unknown_metric(v))
        },
    }
}

/// The header of `s`: `NAME`, `TYPE`, `COMMENT`, `DIMENSION`, `SUBGROUPS`,
/// `CLUSTERS`, `VEHICLES` and `EDGE_WEIGHT_TYPE`, one per valid line in this
/// order; the first line that does not fit decides the error.
pub open spec fn header_outcome(s: Seq<char>) -> Result<HeaderView, Seq<char>> {
    match string_entry(nth_valid_line(s, 0).0, "NAME"@) {
        Err(m) => Err(m),
        Ok(name) => match string_entry(nth_valid_line(s, 1).0, "TYPE"@) {
            Err(m) => Err(m),
            Ok(_) => match string_entry(nth_valid_line(s, 2).0, "COMMENT"@) {
                Err(m) => Err(m),
                Ok(_) => match usize_entry(nth_valid_line(s, 3).0, "DIMENSION"@) {
                    Err(m) => Err(m),
                    Ok(nodes) => match usize_entry(nth_valid_line(s, 4).0, "SUBGROUPS"@) {
                        Err(m) => Err(m),
                        Ok(subgroups) => match usize_entry(nth_valid_line(s, 5).0, "CLUSTERS"@) {
                            Err(m) => Err(m),
                            Ok(clusters) => match usize_entry(
                                nth_valid_line(s, 6).0,
                                "VEHICLES"@,
                            ) {
                                Err(m) => Err(m),
                                Ok(vehicles) => match metric_entry(
                                    nth_valid_line(s, 7).0,
                                    "EDGE_WEIGHT_TYPE"@,
                                ) {
                                    Err(m) => Err(m),
                                    Ok(metric) => Ok(
                                        HeaderView {
                                            name,
                                            metric,
                                            dims: Dimensions { nodes, subgroups, clusters, vehicles },
                                        },
                                    ),
                                },
                            },
                        },
                    },
                },
            },
        },
    }
}

/// Reads one `key: value` line and gives its value.
fn read_string(tracker: &mut LineTracker, expected_key: &str) -> (r: Result<String, InputError>)
    requires
        old(tracker).wf(),
    ensures
        final(tracker).wf(),
        final(tracker).rest() == next_valid_line(old(tracker).rest()).1,
        final(tracker).lines_read() == old(tracker).lines_read() + next_valid_line(
            old(tracker).rest(),
        ).2,
        match r {
            Ok(v) => string_entry(next_valid_line(old(tracker).rest()).0, expected_key@) == Ok::<
                Seq<char>,
                Seq<char>,
            >(v@),
            Err(e) => string_entry(next_valid_line(old(tracker).rest()).0, expected_key@) == Err::<
                Seq<char>,
                Seq<char>,
            >(e.message@),
        },
{
    let line = tracker.read_next_valid_line();
    let parts = get_split_line_parts(line.as_str());
    if parts.len() < 2 {
        let mut m = String::from_str("Expected header '");
        m.append(expected_key);
        m.append(": value', but found '");
        m.append(trim_str(line.as_str()));
        m.append("'");
        assert(m@ =~= msg_expected_value(expected_key@, trim(line@)));
        return Err(InputError::new(m));
    }
    assert(parts@[0]@ == spec_split_line_parts(line@)[0]);
    assert(parts@[1]@ == spec_split_line_parts(line@)[1]);
    let key = trim_str(parts[0]);
    if !str_eq(key, expected_key) {
        let mut m = String::from_str("Expected header '");
        m.append(expected_key);
        m.append("', but found '");
        m.append(key);
        m.append("'");
        assert(m@ =~= msg_expected_key(expected_key@, key@));
        return Err(InputError::new(m));
    }
    Ok(String::from_str(trim_str(parts[1])))
}

/// Reads one `key: value` line with an unsigned integer value.
fn read_usize(tracker: &mut LineTracker, expected_key: &str) -> (r: Result<usize, InputError>)
    requires
        old(tracker).wf(),
    ensures
        final(tracker).wf(),
        final(tracker).rest() == next_valid_line(old(tracker).rest()).1,
        final(tracker).lines_read() == old(tracker).lines_read() + next_valid_line(
            old(tracker).rest(),
        ).2,
        outcome(r) == usize_entry(next_valid_line(old(tracker).rest()).0, expected_key@),
{
    let value = read_string(tracker, expected_key)?;
    match parse_usize(value.as_str()) {
        Ok(n) => Ok(n),
        Err(_) => {
            let mut m = String::from_str("Invalid integer value '");
            m.append(value.as_str());
            m.append("'");
            assert(m@ =~= msg_invalid_integer_value(value@));
            Err(InputError::new(m))
        },
    }
}

/// Reads one `key: value` line that names a metric.
fn read_metric(tracker: &mut LineTracker, expected_key: &str) -> (r: Result<Metric, InputError>)
    requires
        old(tracker).wf(),
    ensures
        final(tracker).wf(),
        final(tracker).rest() == next_valid_line(old(tracker).rest()).1,
        final(tracker).lines_read() == old(tracker).lines_read() + next_valid_line(
            old(tracker).rest(),
        ).2,
        outcome(r) == metric_entry(next_valid_line(old(tracker).rest()).0, expected_key@),
{
    let metric_str = read_string(tracker, expected_key)?;
    let v = metric_str.as_str();
    if str_eq(v, "EUC_2D") {
        Ok(Metric::Euc2d)
    } else if str_eq(v, "EUC_3D") {
        Ok(Metric::Euc3d)
    } else if str_eq(v, "MAN_2D") {
        Ok(Metric::Man2d)
    } else if str_eq(v, "MAN_3D") {
        Ok(Metric::Man3d)
    } else {
        let mut m = String::from_str("Unknown metric: ");
        m.append(v);
        assert(m@ =~= msg_unknown_metric(v@));
        Err(InputError::new(m))
    }
}

/// Reads the header: sets the instance's name and metric and gives the
/// declared counts of nodes, subgroups, clusters and vehicles.
pub fn read_header(instance: &mut Instance, tracker: &mut LineTracker) -> (r: Result<
    Dimensions,
    InputError,
>)
    requires
        old(tracker).wf(),
    ensures
        final(tracker).wf(),
        final(instance).nodes == old(instance).nodes,
        final(instance).subgroups == old(instance).subgroups,
        final(instance).clusters == old(instance).clusters,
        final(instance).vehicles == old(instance).vehicles,
        match r {
            Ok(d) => {
                &&& header_outcome(old(tracker).rest()) == Ok::<HeaderView, Seq<char>>(
                    HeaderView { name: final(instance).name@, metric: final(instance).metric, dims: d },
                )
                &&& final(tracker).rest() == rest_after(old(tracker).rest(), 8)
            },
            Err(e) => header_outcome(old(tracker).rest()) == Err::<HeaderView, Seq<char>>(
                e.message@,
            ),
        },
{
    let ghost s = tracker.rest();
    proof {
        assert(rest_after(s, 0) == s);
        lemma_rest_after_step(s, 0);
        lemma_rest_after_step(s, 1);
        lemma_rest_after_step(s, 2);
        lemma_rest_after_step(s, 3);
        lemma_rest_after_step(s, 4);
        lemma_rest_after_step(s, 5);
        lemma_rest_after_step(s, 6);
        lemma_rest_after_step(s, 7);
    }
    instance.name = read_string(tracker, "NAME")?;
    read_string(tracker, "TYPE")?;
    read_string(tracker, "COMMENT")?;
    let nodes = read_usize(tracker, "DIMENSION")?;
    let subgroups = read_usize(tracker, "SUBGROUPS")?;
    let clusters = read_usize(tracker, "CLUSTERS")?;
    let vehicles = read_usize(tracker, "VEHICLES")?;
    instance.metric = read_metric(tracker, "EDGE_WEIGHT_TYPE")?;
    Ok(Dimensions { nodes, subgroups, clusters, vehicles })
}

} // verus!
