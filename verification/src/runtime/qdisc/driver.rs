//! The interface to the host's traffic-control tool: what it is asked to do
//! and how its statistics output is read.

use vstd::prelude::*;
use crate::runtime::qdisc::strategy::QdiscProfile;
use crate::text::{
    chars_of, line_end, parse_unsigned, parsed_unsigned, split_lines, string_of, token_bounds,
    tokens,
};

verus! {

/// What the statistics output of the traffic-control tool says about one
/// interface's root discipline.
#[derive(Debug, Clone)]
pub struct QdiscRuntimeStats {
    pub kind: Option<String>,
    pub backlog_bytes: Option<u64>,
    pub backlog_packets: Option<u64>,
    pub drops: Option<u64>,
    pub overlimits: Option<u64>,
    pub requeues: Option<u64>,
    pub raw: String,
}

/// The fields read from a statistics output.
pub struct TcFields {
    pub kind: Option<Seq<char>>,
    pub backlog_bytes: Option<u64>,
    pub backlog_packets: Option<u64>,
    pub drops: Option<u64>,
    pub overlimits: Option<u64>,
    pub requeues: Option<u64>,
}

/// The 64-bit number that `s` spells, if it spells one.
pub open spec fn number(s: Seq<char>) -> Option<u64> {
    match parsed_unsigned(s, u64::MAX as nat) {
        Some(n) => Some(n as u64),
        None => None,
    }
}

/// The number that `tok` spells before its final character `suffix`.
pub open spec fn suffixed_number(tok: Seq<char>, suffix: char) -> Option<u64> {
    if tok.len() > 0 && tok.last() == suffix {
        number(tok.drop_last())
    } else {
        None
    }
}

/// `tok` without its trailing commas.
pub open spec fn without_trailing_commas(tok: Seq<char>) -> Seq<char>
    decreases tok.len(),
{
    if tok.len() > 0 && tok.last() == ',' {
        without_trailing_commas(tok.drop_last())
    } else {
        tok
    }
}

/// The fields after the `n` tokens of `line` from `start` on were read as
/// backlog figures: a token ending in `b` that spells a number gives the
/// bytes, one ending in `p` the packets; a later figure replaces an earlier.
pub open spec fn after_candidates(line: Seq<Seq<char>>, start: int, n: int, f: TcFields) -> TcFields
    decreases n,
{
    if n <= 0 {
        f
    } else {
        let g = after_candidates(line, start, n - 1, f);
        let c = line[start + n - 1];
        let g1 = match suffixed_number(c, 'b') {
            Some(v) => TcFields { backlog_bytes: Some(v), ..g },
            None => g,
        };
        match suffixed_number(c, 'p') {
            Some(v) => TcFields { backlog_packets: Some(v), ..g1 },
            None => g1,
        }
    }
}

/// How many tokens after the one at `idx` are read as backlog figures: up
/// to six, as far as the line goes.
pub open spec fn candidate_count(len: int, idx: int) -> int {
    if len - idx - 1 < 6 {
        len - idx - 1
    } else {
        6
    }
}

/// The fields after the token at `idx` of `line` was read: `backlog` is
/// followed by the backlog figures; `(dropped`, `overlimits` and `requeues`
/// are each followed by their count, which is read with trailing commas
/// removed and is absent where that is no number.
pub open spec fn after_token(line: Seq<Seq<char>>, idx: int, f: TcFields) -> TcFields {
    let tok = line[idx];
    if tok == "backlog"@ {
        after_candidates(line, idx + 1, candidate_count(line.len() as int, idx), f)
    } else if tok == "(dropped"@ && idx + 1 < line.len() {
        TcFields { drops: number(without_trailing_commas(line[idx + 1])), ..f }
    } else if tok == "overlimits"@ && idx + 1 < line.len() {
        TcFields { overlimits: number(without_trailing_commas(line[idx + 1])), ..f }
    } else if tok == "requeues"@ && idx + 1 < line.len() {
        TcFields { requeues: number(without_trailing_commas(line[idx + 1])), ..f }
    } else {
        f
    }
}

/// The fields after the first `n` tokens of `line` were read.
pub open spec fn after_tokens(line: Seq<Seq<char>>, n: int, f: TcFields) -> TcFields
    decreases n,
{
    if n <= 0 {
        f
    } else {
        after_token(line, n - 1, after_tokens(line, n - 1, f))
    }
}

/// The fields after the line with the tokens `line` was read: the first line
/// that starts with `qdisc` and has a second token names the kind.
pub open spec fn after_line(line: Seq<Seq<char>>, f: TcFields) -> TcFields {
    let named = if f.kind is None && line.len() >= 2 && line[0] == "qdisc"@ {
        TcFields { kind: Some(line[1]), ..f }
    } else {
        f
    };
    after_tokens(line, line.len() as int, named)
}

/// The fields after the first `n` of `lines` were read.
pub open spec fn after_lines(lines: Seq<Seq<char>>, n: int, f: TcFields) -> TcFields
    decreases n,
{
    if n <= 0 {
        f
    } else {
        after_line(tokens(lines[n - 1]), after_lines(lines, n - 1, f))
    }
}

/// The fields that the statistics output `text` gives.
pub open spec fn parsed_fields(text: Seq<char>) -> TcFields {
    after_lines(
        split_lines(text),
        split_lines(text).len() as int,
        TcFields {
            kind: None,
            backlog_bytes: None,
            backlog_packets: None,
            drops: None,
            overlimits: None,
            requeues: None,
        },
    )
}

/// Whether the characters `v[a..b]` spell `lit`.
fn range_is(v: &Vec<char>, a: usize, b: usize, lit: &str) -> (r: bool)
    requires
        a <= b <= v.len(),
    ensures
        r == (v@.subrange(a as int, b as int) == lit@),
{
    let w = chars_of(lit);
    if b - a != w.len() {
        return false;
    }
    let mut i: usize = 0;
    while i < w.len()
        invariant
            a <= b <= v.len(),
            b - a == w.len(),
            w@ == lit@,
            i <= w.len(),
            forall|j: int| 0 <= j < i ==> v@[a + j] == w@[j],
        decreases w.len() - i,
    {
        if v[a + i] != w[i] {
            assert(v@.subrange(a as int, b as int)[i as int] != lit@[i as int]);
            return false;
        }
        i += 1;
    }
    assert(v@.subrange(a as int, b as int) =~= w@);
    true
}

/// The number that `v[a..b]` spells.
fn range_number(v: &Vec<char>, a: usize, b: usize) -> (r: Option<u64>)
    requires
        a <= b <= v.len(),
    ensures
        r == number(v@.subrange(a as int, b as int)),
{
    parse_unsigned(v, a, b, u64::MAX)
}

/// The number that `v[a..b]` spells before its final character `suffix`.
fn range_suffixed_number(v: &Vec<char>, a: usize, b: usize, suffix: char) -> (r: Option<u64>)
    requires
        a <= b <= v.len(),
    ensures
        r == suffixed_number(v@.subrange(a as int, b as int), suffix),
{
    if b > a && v[b - 1] == suffix {
        assert(v@.subrange(a as int, b as int).drop_last() =~= v@.subrange(a as int, b - 1));
        range_number(v, a, b - 1)
    } else {
        None
    }
}

/// The number that `v[a..b]` spells once its trailing commas are removed.
fn range_count(v: &Vec<char>, a: usize, b: usize) -> (r: Option<u64>)
    requires
        a <= b <= v.len(),
    ensures
        r == number(without_trailing_commas(v@.subrange(a as int, b as int))),
{
    let mut e: usize = b;
    while e > a && v[e - 1] == ','
        invariant
            a <= e <= b <= v.len(),
            without_trailing_commas(v@.subrange(a as int, b as int)) == without_trailing_commas(
                v@.subrange(a as int, e as int),
            ),
        decreases e,
    {
        assert(v@.subrange(a as int, e as int).drop_last() =~= v@.subrange(a as int, e - 1));
        e -= 1;
    }
    range_number(v, a, e)
}

impl QdiscRuntimeStats {
    /// The fields of the record, the kind by its characters.
    pub open spec fn spec_fields(&self) -> TcFields {
        TcFields {
            kind: match self.kind {
                Some(k) => Some(k@),
                None => None,
            },
            backlog_bytes: self.backlog_bytes,
            backlog_packets: self.backlog_packets,
            drops: self.drops,
            overlimits: self.overlimits,
            requeues: self.requeues,
        }
    }

    /// Reads the statistics output of the traffic-control tool. The output
    /// itself is kept in `raw`.
    pub fn parse(tc_output: &str) -> (out: Self)
        ensures
            out.raw@ == tc_output@,
            out.spec_fields() == parsed_fields(tc_output@),
    {
        let v = chars_of(tc_output);
        let mut out = QdiscRuntimeStats {
            kind: None,
            backlog_bytes: None,
            backlog_packets: None,
            drops: None,
            overlimits: None,
            requeues: None,
            raw: tc_output.to_owned(),
        };
        let ghost lines = split_lines(v@);
        let ghost mut done: int = 0;
        let mut pos: usize = 0;
        assert(v@.skip(0) =~= v@);
        while pos < v.len()
            invariant
                pos <= v.len(),
                v@ == tc_output@,
                out.raw@ == tc_output@,
                lines == split_lines(v@),
                0 <= done <= lines.len(),
                lines =~= lines.take(done) + split_lines(v@.skip(pos as int)),
                out.spec_fields() == after_lines(lines, done, parsed_fields(Seq::empty())),
            decreases v.len() - pos,
        {
            let e = line_end(&v, pos);
            let bounds = token_bounds(&v, pos, e);
            let ghost rest = v@.skip(pos as int);
            let ghost line = tokens(v@.subrange(pos as int, e as int));
            proof {
                assert(rest.take(e - pos) =~= v@.subrange(pos as int, e as int));
                if e < v.len() {
                    assert(rest.skip(e - pos + 1) =~= v@.skip(e + 1));
                    assert(split_lines(rest) == seq![rest.take(e - pos)] + split_lines(
                        v@.skip(e + 1),
                    ));
                } else {
                    assert(rest.take(e - pos) =~= rest);
                    assert(split_lines(rest) == seq![rest]);
                    assert(v@.skip(e as int) =~= Seq::<char>::empty());
                    assert(split_lines(v@.skip(e as int)) =~= Seq::<Seq<char>>::empty());
                }
                assert(lines[done] == (lines.take(done) + split_lines(rest))[done]);
                assert(lines[done] == v@.subrange(pos as int, e as int));
                assert(lines.take(done + 1) =~= lines.take(done).push(lines[done]));
            }
            let ghost before_line = out.spec_fields();
            if out.kind.is_none() && bounds.len() >= 2 && range_is(
                &v,
                bounds[0].0,
                bounds[0].1,
                "qdisc",
            ) {
                out.kind = Some(string_of(&v, bounds[1].0, bounds[1].1));
            }
            let ghost named = out.spec_fields();
            let mut idx: usize = 0;
            while idx < bounds.len()
                invariant
                    idx <= bounds@.len(),
                    pos <= e <= v.len(),
                    out.raw@ == tc_output@,
                    bounds@.len() == line.len(),
                    forall|i: int|
                        0 <= i < bounds@.len() ==> pos <= (#[trigger] bounds@[i]).0 <= bounds@[i].1
                            <= e && v@.subrange(bounds@[i].0 as int, bounds@[i].1 as int)
                            == line[i],
                    out.spec_fields() == after_tokens(line, idx as int, named),
                decreases bounds.len() - idx,
            {
                let (a, b) = bounds[idx];
                let ghost before_token = out.spec_fields();
                if range_is(&v, a, b, "backlog") {
                    let mut taken: usize = 0;
                    while taken < 6 && taken < bounds.len() - idx - 1
                        invariant
                            taken <= 6,
                            idx + taken < bounds@.len(),
                            pos <= e <= v.len(),
                            out.raw@ == tc_output@,
                            bounds@.len() == line.len(),
                            forall|i: int|
                                0 <= i < bounds@.len() ==> pos <= (#[trigger] bounds@[i]).0
                                    <= bounds@[i].1 <= e && v@.subrange(
                                    bounds@[i].0 as int,
                                    bounds@[i].1 as int,
                                ) == line[i],
                            out.spec_fields() == after_candidates(
                                line,
                                idx + 1,
                                taken as int,
                                before_token,
                            ),
                        decreases 6 - taken,
                    {
                        let (ca, cb) = bounds[idx + 1 + taken];
                        if let Some(value) = range_suffixed_number(&v, ca, cb, 'b') {
                            out.backlog_bytes = Some(value);
                        }
                        if let Some(value) = range_suffixed_number(&v, ca, cb, 'p') {
                            out.backlog_packets = Some(value);
                        }
                        taken += 1;
                    }
                } else if range_is(&v, a, b, "(dropped") && idx + 1 < bounds.len() {
                    out.drops = range_count(&v, bounds[idx + 1].0, bounds[idx + 1].1);
                } else if range_is(&v, a, b, "overlimits") && idx + 1 < bounds.len() {
                    out.overlimits = range_count(&v, bounds[idx + 1].0, bounds[idx + 1].1);
                } else if range_is(&v, a, b, "requeues") && idx + 1 < bounds.len() {
                    out.requeues = range_count(&v, bounds[idx + 1].0, bounds[idx + 1].1);
                }
                idx += 1;
            }
            proof {
                assert(out.spec_fields() == after_line(line, before_line));
                done = done + 1;
            }
            if e < v.len() {
                pos = e + 1;
            } else {
                pos = e;
            }
        }
        proof {
            assert(v@.skip(v@.len() as int) =~= Seq::<char>::empty());
            assert(lines =~= lines.take(done));
        }
        out
    }
}

impl Default for QdiscRuntimeStats {
    fn default() -> (s: QdiscRuntimeStats)
        ensures
            s.raw@ == Seq::<char>::empty(),
            s.spec_fields() == parsed_fields(Seq::empty()),
    {
        QdiscRuntimeStats {
            kind: None,
            backlog_bytes: None,
            backlog_packets: None,
            drops: None,
            overlimits: None,
            requeues: None,
            raw: String::new(),
        }
    }
}

/// Reads one unsigned 64-bit count; surrounding whitespace is ignored.
pub fn parse_u64_token(s: &str) -> (r: Option<u64>)
    ensures
        r == number(crate::text::trimmed(s@)),
{
    crate::text::parse_trimmed_unsigned(s, u64::MAX)
}

/// What a driver of the host's root disciplines offers. The outcome of each
/// call lies with the host: a driver may say which answers it gives to which
/// request; unless it does, every answer counts as one of its answers.
pub trait QdiscDriver: Send {
    /// Whether `r` is an answer of the driver to the request to replace the
    /// root discipline of `iface` by `profile`.
    open spec fn answers_replace(&self, iface: Seq<char>, profile: QdiscProfile, r: Result<(), String>) -> bool {
        true
    }

    /// Whether `r` is an answer of the driver to the request to remove the
    /// root discipline of `iface`.
    open spec fn answers_delete(&self, iface: Seq<char>, r: Result<(), String>) -> bool {
        true
    }

    /// Whether `r` is an answer of the driver to the request for the
    /// statistics of the root discipline of `iface`.
    open spec fn answers_stats(&self, iface: Seq<char>, r: Result<QdiscRuntimeStats, String>) -> bool {
        true
    }

    /// Replaces the root discipline of `iface` by `profile`.
    fn replace_root(&self, iface: &str, profile: &QdiscProfile) -> (r: Result<(), String>)
        ensures
            self.answers_replace(iface@, *profile, r),
    ;

    /// Removes the root discipline of `iface`.
    fn delete_root(&self, iface: &str) -> (r: Result<(), String>)
        ensures
            self.answers_delete(iface@, r),
    ;

    /// Reads the statistics of the root discipline of `iface`.
    fn show_stats(&self, iface: &str) -> (r: Result<QdiscRuntimeStats, String>)
        ensures
            self.answers_stats(iface@, r),
    ;
}

/// Builds the command lines for the Linux `tc` tool.
pub struct LinuxTcQdiscDriver {
    dry_run: bool,
}

/// The arguments that name the parameters `params`: each key in ascending
/// order, followed by its value unless that is empty.
pub open spec fn param_args(params: Seq<(Seq<char>, String)>, n: int) -> Seq<Seq<char>>
    decreases n,
{
    if n <= 0 {
        Seq::empty()
    } else {
        let head = param_args(params, n - 1).push(params[n - 1].0);
        if params[n - 1].1@.len() > 0 {
            head.push(params[n - 1].1@)
        } else {
            head
        }
    }
}

/// The arguments of `tc` that replace the root discipline of `iface` by
/// `profile`: `qdisc replace dev <iface> root`, the handle if there is one,
/// the name of the kind, then the parameters.
pub open spec fn replace_root_args(iface: Seq<char>, profile: QdiscProfile) -> Seq<Seq<char>> {
    let head = seq!["qdisc"@, "replace"@, "dev"@, iface, "root"@];
    let handled = match profile.handle {
        Some(h) => head.push("handle"@).push(h@),
        None => head,
    };
    handled.push(profile.kind.as_tc_name_spec()) + param_args(
        profile.params@,
        profile.params@.len() as int,
    )
}

/// The text of each of the strings `v`.
pub open spec fn texts(v: Seq<String>) -> Seq<Seq<char>> {
    v.map_values(|s: String| s@)
}

impl LinuxTcQdiscDriver {
    /// A driver that, in a dry run, only logs what it would do.
    pub fn new(dry_run: bool) -> (d: Self)
        ensures
            d.spec_dry_run() == dry_run,
    {
        Self { dry_run }
    }

    pub closed spec fn spec_dry_run(&self) -> bool {
        self.dry_run
    }

    /// Whether the driver only logs what it would do.
    pub fn dry_run(&self) -> (r: bool)
        ensures
            r == self.spec_dry_run(),
    {
        self.dry_run
    }

    /// The arguments of `tc` that replace the root discipline of `iface`.
    pub fn build_replace_root_args(&self, iface: &str, profile: &QdiscProfile) -> (args: Vec<String>)
        ensures
            texts(args@) == replace_root_args(iface@, *profile),
    {
        let mut args: Vec<String> = Vec::new();
        args.push("qdisc".to_owned());
        args.push("replace".to_owned());
        args.push("dev".to_owned());
        args.push(iface.to_owned());
        args.push("root".to_owned());
        assert(texts(args@) =~= seq!["qdisc"@, "replace"@, "dev"@, iface@, "root"@]);
        if let Some(handle) = &profile.handle {
            let ghost t0 = texts(args@);
            args.push("handle".to_owned());
            args.push(handle.clone());
            assert(texts(args@) =~= t0.push("handle"@).push(handle@));
        }
        let ghost t1 = texts(args@);
        args.push(profile.kind.as_tc_name().to_owned());
        let ghost t2 = texts(args@);
        assert(t2 =~= t1.push(profile.kind.as_tc_name_spec()));
        let n = profile.params.len();
        let mut i: usize = 0;
        while i < n
            invariant
                i <= n,
                n == profile.params@.len(),
                texts(args@) =~= t2 + param_args(profile.params@, i as int),
            decreases n - i,
        {
            let ghost t3 = texts(args@);
            args.push(profile.params.key_at(i).to_owned());
            assert(texts(args@) =~= t3.push(profile.params@[i as int].0));
            let value = profile.params.value_at(i);
            if value.as_str().unicode_len() > 0 {
                let ghost t4 = texts(args@);
                args.push(value.clone());
                assert(texts(args@) =~= t4.push(value@));
            }
            i += 1;
        }
        args
    }

    /// The arguments of `tc` that remove the root discipline of `iface`.
    pub fn build_delete_root_args(&self, iface: &str) -> (args: Vec<String>)
        ensures
            texts(args@) == seq!["qdisc"@, "del"@, "dev"@, iface@, "root"@],
    {
        let mut args: Vec<String> = Vec::new();
        args.push("qdisc".to_owned());
        args.push("del".to_owned());
        args.push("dev".to_owned());
        args.push(iface.to_owned());
        args.push("root".to_owned());
        assert(texts(args@) =~= seq!["qdisc"@, "del"@, "dev"@, iface@, "root"@]);
        args
    }

    /// The arguments of `tc` that show the statistics of `iface`.
    pub fn build_show_stats_args(&self, iface: &str) -> (args: Vec<String>)
        ensures
            texts(args@) == seq!["-s"@, "qdisc"@, "show"@, "dev"@, iface@],
    {
        let mut args: Vec<String> = Vec::new();
        args.push("-s".to_owned());
        args.push("qdisc".to_owned());
        args.push("show".to_owned());
        args.push("dev".to_owned());
        args.push(iface.to_owned());
        assert(texts(args@) =~= seq!["-s"@, "qdisc"@, "show"@, "dev"@, iface@]);
        args
    }
}

} // verus!
