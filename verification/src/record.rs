//! The route-record parser: turns one registry entry's text into a
//! candidate route — prefix, origin ASNs and an optional declared
//! maximum length.

use vstd::prelude::*;

use crate::cidr::Cidr;
use crate::cidr::spec_parse_cidr;
use crate::text::is_space;
use crate::text::is_space_byte;
use crate::text::lower_bytes;
use crate::text::parse_u8;
use crate::text::spec_lower;
use crate::text::spec_parse_u8;
use crate::text::spec_split;
use crate::text::spec_tokens;
use crate::text::spec_upper;
use crate::text::split_bytes;
use crate::text::tokenize;
use crate::text::upper_bytes;

verus! {

/// Why one route record was rejected. Each failure aborts only that
/// record; the surrounding scan continues.
#[derive(Clone, Debug, PartialEq, Eq)]
pub enum RecordError {
    /// A `max-length:` value did not parse as an integer.
    MalformedRecord,
    /// No `route:` or `route6:` line was found.
    NoRouteSpecified,
    /// The captured prefix text is not valid CIDR notation; carries
    /// that text.
    MalformedCidr(Vec<u8>),
    /// No filter rule covers the record's address; carries the prefix
    /// text.
    OutOfPolicyRange(Vec<u8>),
}

/// Mathematical image of `RecordError`.
#[verifier::ext_equal]
pub enum RecordErrorV {
    MalformedRecord,
    NoRouteSpecified,
    MalformedCidr(Seq<u8>),
    OutOfPolicyRange(Seq<u8>),
}

impl View for RecordError {
    type V = RecordErrorV;

    open spec fn view(&self) -> RecordErrorV {
        match self {
            RecordError::MalformedRecord => RecordErrorV::MalformedRecord,
            RecordError::NoRouteSpecified => RecordErrorV::NoRouteSpecified,
            RecordError::MalformedCidr(t) => RecordErrorV::MalformedCidr(t@),
            RecordError::OutOfPolicyRange(t) => RecordErrorV::OutOfPolicyRange(t@),
        }
    }
}

impl DeepView for RecordError {
    type V = RecordErrorV;

    open spec fn deep_view(&self) -> RecordErrorV {
        self.view()
    }
}

/// One parsed route record: the prefix as captured (original casing),
/// the network it denotes, the origin ASNs in order of appearance
/// (upper-cased, duplicates kept), and any declared maximum length.
#[derive(Clone, Debug, PartialEq, Eq)]
pub struct RouteRecord {
    pub prefix_text: Vec<u8>,
    pub network: Cidr,
    pub asns: Vec<Vec<u8>>,
    pub declared_max: Option<u8>,
}

/// Mathematical image of `RouteRecord`.
#[verifier::ext_equal]
pub struct RouteRecordV {
    pub prefix_text: Seq<u8>,
    pub network: Cidr,
    pub asns: Seq<Seq<u8>>,
    pub declared_max: Option<u8>,
}

impl View for RouteRecord {
    type V = RouteRecordV;

    open spec fn view(&self) -> RouteRecordV {
        RouteRecordV {
            prefix_text: self.prefix_text@,
            network: self.network,
            asns: self.asns.deep_view(),
            declared_max: self.declared_max,
        }
    }
}

/// What the line scanner has gathered so far.
#[verifier::ext_equal]
pub struct ScanState {
    pub prefix: Option<Seq<u8>>,
    pub asns: Seq<Seq<u8>>,
    pub max: Option<u8>,
}

/// The scanner starts with nothing gathered.
pub open spec fn init_scan() -> ScanState {
    ScanState { prefix: None, asns: Seq::empty(), max: None }
}

/// The keyword `route:`.
pub open spec fn kw_route() -> Seq<u8> {
    seq![114u8, 111u8, 117u8, 116u8, 101u8, 58u8]
}

/// The keyword `route6:`.
pub open spec fn kw_route6() -> Seq<u8> {
    seq![114u8, 111u8, 117u8, 116u8, 101u8, 54u8, 58u8]
}

/// The keyword `origin:`.
pub open spec fn kw_origin() -> Seq<u8> {
    seq![111u8, 114u8, 105u8, 103u8, 105u8, 110u8, 58u8]
}

/// The keyword `max-length:`.
pub open spec fn kw_max_length() -> Seq<u8> {
    seq![109u8, 97u8, 120u8, 45u8, 108u8, 101u8, 110u8, 103u8, 116u8, 104u8, 58u8]
}

fn is_kw_route(t: &[u8]) -> (r: bool)
    ensures
        r == (t@ == kw_route()),
{
    let r = t.len() == 6 && t[0] == 114 && t[1] == 111 && t[2] == 117 && t[3] == 116 && t[4]
        == 101 && t[5] == 58;
    proof {
        if r {
            assert(t@ =~= kw_route());
        }
    }
    r
}

fn is_kw_route6(t: &[u8]) -> (r: bool)
    ensures
        r == (t@ == kw_route6()),
{
    let r = t.len() == 7 && t[0] == 114 && t[1] == 111 && t[2] == 117 && t[3] == 116 && t[4]
        == 101 && t[5] == 54 && t[6] == 58;
    proof {
        if r {
            assert(t@ =~= kw_route6());
        }
    }
    r
}

fn is_kw_origin(t: &[u8]) -> (r: bool)
    ensures
        r == (t@ == kw_origin()),
{
    let r = t.len() == 7 && t[0] == 111 && t[1] == 114 && t[2] == 105 && t[3] == 103 && t[4]
        == 105 && t[5] == 110 && t[6] == 58;
    proof {
        if r {
            assert(t@ =~= kw_origin());
        }
    }
    r
}

fn is_kw_max_length(t: &[u8]) -> (r: bool)
    ensures
        r == (t@ == kw_max_length()),
{
    let r = t.len() == 11 && t[0] == 109 && t[1] == 97 && t[2] == 120 && t[3] == 45 && t[4] == 108
        && t[5] == 101 && t[6] == 110 && t[7] == 103 && t[8] == 116 && t[9] == 104 && t[10] == 58;
    proof {
        if r {
            assert(t@ =~= kw_max_length());
        }
    }
    r
}

/// How one line changes the scanner's state, or fails the record.
/// Continuation lines (first byte whitespace), blank lines and lines of
/// fewer than two tokens are skipped; keywords are matched on the
/// lower-cased first token; a `route:`/`route6:` line captures the
/// second token as the prefix (latest wins), an `origin:` line appends
/// its upper-cased second token, and a `max-length:` line must carry an
/// integer, else the record is malformed. Lines under any other keyword
/// are ignored.
pub open spec fn scan_line(st: ScanState, line: Seq<u8>) -> Option<ScanState> {
    if line.len() == 0 || is_space(line[0]) {
        Some(st)
    } else {
        let toks = spec_tokens(line);
        if toks.len() < 2 {
            Some(st)
        } else {
            let k0 = spec_lower(toks[0]);
            if k0 == kw_route() || k0 == kw_route6() {
                Some(ScanState { prefix: Some(toks[1]), asns: st.asns, max: st.max })
            } else if k0 == kw_origin() {
                Some(ScanState { prefix: st.prefix, asns: st.asns.push(spec_upper(toks[1])), max: st.max })
            } else if k0 == kw_max_length() {
                match spec_parse_u8(toks[1]) {
                    Some(v) => Some(ScanState { prefix: st.prefix, asns: st.asns, max: Some(v) }),
                    None => None,
                }
            } else {
                Some(st)
            }
        }
    }
}

/// Scan the lines in order, threading the state.
pub open spec fn scan_lines(lines: Seq<Seq<u8>>, st: ScanState) -> Option<ScanState>
    decreases lines.len(),
{
    if lines.len() == 0 {
        Some(st)
    } else {
        match scan_line(st, lines[0]) {
            Some(st2) => scan_lines(lines.skip(1), st2),
            None => None,
        }
    }
}

/// What one record's text denotes: the scan of its lines, then the
/// demands that a route was named and that its prefix is valid CIDR
/// notation.
pub open spec fn spec_parse_record(text: Seq<u8>) -> Result<RouteRecordV, RecordErrorV> {
    match scan_lines(spec_split(text, 10), init_scan()) {
        None => Err(RecordErrorV::MalformedRecord),
        Some(st) => match st.prefix {
            None => Err(RecordErrorV::NoRouteSpecified),
            Some(pt) => match spec_parse_cidr(pt) {
                None => Err(RecordErrorV::MalformedCidr(pt)),
                Some(c) => Ok(
                    RouteRecordV {
                        prefix_text: pt,
                        network: c,
                        asns: st.asns,
                        declared_max: st.max,
                    },
                ),
            },
        },
    }
}

/// Parse one route record's text.
pub fn parse_record(text: &[u8]) -> (r: Result<RouteRecord, RecordError>)
    ensures
        match (r, spec_parse_record(text@)) {
            (Ok(rec), Ok(v)) => rec@ =~~= v && rec.network.wf(),
            (Err(e), Err(ev)) => e@ =~~= ev,
            _ => false,
        },
{
    let lines = split_bytes(text, 10);
    let ghost lv = lines.deep_view();
    let mut prefix: Option<Vec<u8>> = None;
    let mut asns: Vec<Vec<u8>> = Vec::new();
    let mut maxl: Option<u8> = None;
    let mut i: usize = 0;
    proof {
        assert(prefix.deep_view() == init_scan().prefix);
        assert(asns.deep_view() =~~= init_scan().asns);
        assert(ScanState { prefix: prefix.deep_view(), asns: asns.deep_view(), max: maxl } =~= init_scan());
        assert(lv.skip(0int) =~~= lv);
    }
    while i < lines.len()
        invariant
            0 <= i <= lv.len(),
            lv == lines.deep_view(),
            lv.len() == lines@.len(),
            lv == spec_split(text@, 10),
            scan_lines(lv, init_scan()) == scan_lines(
                lv.skip(i as int),
                ScanState { prefix: prefix.deep_view(), asns: asns.deep_view(), max: maxl },
            ),
        decreases lines@.len() - i,
    {
        let ghost st_pre = ScanState {
            prefix: prefix.deep_view(),
            asns: asns.deep_view(),
            max: maxl,
        };
        proof {
            assert(lv[i as int] == lines@[i as int]@);
            assert(lv.skip(i as int)[0] == lv[i as int]);
            assert(lv.skip(i as int).skip(1) =~~= lv.skip(i + 1));
        }
        let line = lines[i].as_slice();
        if line.len() == 0 || is_space_byte(line[0]) {
            proof {
                assert(scan_line(st_pre, lv[i as int]) == Some(st_pre));
            }
        } else {
            let toks = tokenize(line);
            if toks.len() < 2 {
                proof {
                    assert(scan_line(st_pre, lv[i as int]) == Some(st_pre));
                }
            } else {
                proof {
                    assert(toks.deep_view()[0] == toks@[0]@);
                    assert(toks.deep_view()[1] == toks@[1]@);
                }
                let k0 = lower_bytes(toks[0].as_slice());
                if is_kw_route(k0.as_slice()) || is_kw_route6(k0.as_slice()) {
                    prefix = Some(vstd::slice::slice_to_vec(toks[1].as_slice()));
                    proof {
                        assert(scan_line(st_pre, lv[i as int]) == Some(
                            ScanState {
                                prefix: prefix.deep_view(),
                                asns: asns.deep_view(),
                                max: maxl,
                            },
                        ));
                    }
                } else if is_kw_origin(k0.as_slice()) {
                    asns.push(upper_bytes(toks[1].as_slice()));
                    proof {
                        assert(asns.deep_view() =~~= st_pre.asns.push(
                            spec_upper(toks.deep_view()[1]),
                        ));
                        assert(scan_line(st_pre, lv[i as int]) == Some(
                            ScanState {
                                prefix: prefix.deep_view(),
                                asns: asns.deep_view(),
                                max: maxl,
                            },
                        ));
                    }
                } else if is_kw_max_length(k0.as_slice()) {
                    match parse_u8(toks[1].as_slice()) {
                        Some(v) => {
                            maxl = Some(v);
                            proof {
                                assert(scan_line(st_pre, lv[i as int]) == Some(
                                    ScanState {
                                        prefix: prefix.deep_view(),
                                        asns: asns.deep_view(),
                                        max: maxl,
                                    },
                                ));
                            }
                        },
                        None => {
                            proof {
                                assert(scan_line(st_pre, lv[i as int]).is_none());
                                assert(scan_lines(lv.skip(i as int), st_pre).is_none());
                                assert(scan_lines(lv, init_scan()).is_none());
                                assert(spec_parse_record(text@) == Err::<
                                    RouteRecordV,
                                    RecordErrorV,
                                >(RecordErrorV::MalformedRecord));
                            }
                            return Err(RecordError::MalformedRecord);
                        },
                    }
                } else {
                    proof {
                        assert(scan_line(st_pre, lv[i as int]) == Some(st_pre));
                    }
                }
            }
        }
        i = i + 1;
    }
    let ghost st_f = ScanState { prefix: prefix.deep_view(), asns: asns.deep_view(), max: maxl };
    proof {
        assert(lv.skip(lv.len() as int).len() == 0);
        assert(scan_lines(lv.skip(lv.len() as int), st_f) == Some(st_f));
        assert(scan_lines(spec_split(text@, 10), init_scan()) == Some(st_f));
    }
    let pt = match prefix {
        Some(pt) => pt,
        None => {
            return Err(RecordError::NoRouteSpecified);
        },
    };
    proof {
        assert(pt.deep_view() =~= pt@);
        assert(st_f.prefix == Some(pt@));
    }
    match Cidr::parse(pt.as_slice()) {
        Some(c) => Ok(
            RouteRecord { prefix_text: pt, network: c, asns, declared_max: maxl },
        ),
        None => Err(RecordError::MalformedCidr(pt)),
    }
}

} // verus!
