//! The rule set of the packet filter, which polices the traffic of applications.
//!
//! Traffic over the cap of an application is dropped where the socket that owns
//! it is known: on the input hook for downloads, on the output hook for uploads.
//! The whole table is replaced at every change.

use vstd::prelude::*;

use crate::engine::cgroup::APP_LEVEL;
use crate::number::{dec, decimal};
use crate::proto::Scope;
use crate::text::strings;

verus! {

/// The local IPv4 ranges: loopback, private, link-local and shared.
pub const V4_PRIVATE: &'static str =
    "127.0.0.0/8, 10.0.0.0/8, 172.16.0.0/12, 192.168.0.0/16, 169.254.0.0/16, 100.64.0.0/10";

/// The local IPv6 ranges: loopback, unique local and link-local.
pub const V6_PRIVATE: &'static str = "::1, fc00::/7, fe80::/10";

/// The places where the tool of the packet filter may be installed, in order.
pub fn bin_paths() -> (r: Vec<String>)
    ensures
        r.deep_view() == seq!["/usr/sbin/nft"@, "/sbin/nft"@, "/usr/bin/nft"@],
{
    let r: Vec<String> = strings(&["/usr/sbin/nft", "/sbin/nft", "/usr/bin/nft"]);
    assert(r.deep_view() =~= seq!["/usr/sbin/nft"@, "/sbin/nft"@, "/usr/bin/nft"@]);
    r
}

/// What the packet filter is to do with one application.
pub struct AppRule {
    /// Group of the application relative to the root of the hierarchy.
    pub cgroup_rel: String,
    pub down_bps: Option<u64>,
    pub up_bps: Option<u64>,
    /// Which remote addresses the caps apply to.
    pub scope: Scope,
    /// Drop all traffic of the application. Takes precedence over the caps.
    pub blocked: bool,
}

/// The same as a value.
pub struct RuleModel {
    pub group: Seq<char>,
    pub down_bps: Option<u64>,
    pub up_bps: Option<u64>,
    pub scope: Scope,
    pub blocked: bool,
}

impl View for AppRule {
    type V = RuleModel;

    open spec fn view(&self) -> RuleModel {
        RuleModel {
            group: self.cgroup_rel@,
            down_bps: self.down_bps,
            up_bps: self.up_bps,
            scope: self.scope,
            blocked: self.blocked,
        }
    }
}

/// Rules as values.
pub open spec fn rule_models(rules: Seq<AppRule>) -> Seq<RuleModel> {
    rules.map_values(|r: AppRule| r@)
}

/// The match on the remote address of one family.
pub open spec fn clause(
    family: Seq<char>,
    field: Seq<char>,
    negated: bool,
    ranges: Seq<char>,
) -> Seq<char> {
    family + " "@ + field + (if negated {
        " != { "@
    } else {
        " { "@
    }) + ranges + " } "@
}

/// The matches on the remote address for a scope, one for each family; all
/// traffic needs no match.
pub open spec fn clauses(scope: Scope, field: Seq<char>) -> Seq<Seq<char>> {
    match scope {
        Scope::Both => seq![Seq::<char>::empty()],
        Scope::Lan => seq![
            clause("ip"@, field, false, V4_PRIVATE@),
            clause("ip6"@, field, false, V6_PRIVATE@),
        ],
        Scope::Internet => seq![
            clause("ip"@, field, true, V4_PRIVATE@),
            clause("ip6"@, field, true, V6_PRIVATE@),
        ],
    }
}

fn clause_text(family: &str, field: &str, negated: bool, ranges: &str) -> (r: String)
    ensures
        r@ == clause(family@, field@, negated, ranges@),
{
    let mut r: String = family.to_string();
    r.append(" ");
    r.append(field);
    if negated {
        r.append(" != { ");
    } else {
        r.append(" { ");
    }
    r.append(ranges);
    r.append(" } ");
    r
}

/// Write the matches on the remote address, which is `saddr` in inbound and
/// `daddr` in outbound traffic.
pub fn scope_clauses(scope: Scope, field: &str) -> (r: Vec<String>)
    ensures
        r.deep_view() == clauses(scope, field@),
{
    let r: Vec<String> = match scope {
        Scope::Both => vec![String::new()],
        Scope::Lan => vec![
            clause_text("ip", field, false, V4_PRIVATE),
            clause_text("ip6", field, false, V6_PRIVATE),
        ],
        Scope::Internet => vec![
            clause_text("ip", field, true, V4_PRIVATE),
            clause_text("ip6", field, true, V6_PRIVATE),
        ],
    };
    proof {
        if scope == Scope::Both {
            assert(r@[0]@ =~= Seq::<char>::empty());
        }
        assert(r.deep_view() =~= clauses(scope, field@));
    }
    r
}

/// The burst of a cap: a quarter of a second of traffic, but at least 64 KiB.
pub open spec fn burst_of(bps: u64) -> u64 {
    if bps / 4 >= 65536 {
        bps / 4
    } else {
        65536
    }
}

/// The burst that smooths short spikes without exceeding the cap by much.
pub fn burst(bps: u64) -> (r: u64)
    ensures
        r == burst_of(bps),
{
    if bps / 4 >= 65536 {
        bps / 4
    } else {
        65536
    }
}

/// The start of a rule on the traffic of one group.
pub open spec fn rule_head(hook: Seq<char>, group: Seq<char>) -> Seq<char> {
    "add rule inet curb "@ + hook + " socket cgroupv2 level "@ + decimal(APP_LEVEL as nat)
        + " \""@ + group + "\" "@
}

/// Drop all traffic of a group.
pub open spec fn drop_line(hook: Seq<char>, group: Seq<char>) -> Seq<char> {
    rule_head(hook, group) + "drop\n"@
}

/// Drop traffic of a group over a cap.
pub open spec fn police_line(
    hook: Seq<char>,
    group: Seq<char>,
    matching: Seq<char>,
    bps: u64,
) -> Seq<char> {
    rule_head(hook, group) + matching + "limit rate over "@ + decimal(bps as nat)
        + " bytes/second burst "@ + decimal(burst_of(bps) as nat) + " bytes drop\n"@
}

/// Drop traffic of a group over a cap, by each of the matches.
pub open spec fn police_lines(
    hook: Seq<char>,
    group: Seq<char>,
    matching: Seq<Seq<char>>,
    bps: u64,
) -> Seq<char>
    decreases matching.len(),
{
    if matching.len() == 0 {
        Seq::empty()
    } else {
        police_lines(hook, group, matching.drop_last(), bps) + police_line(
            hook,
            group,
            matching.last(),
            bps,
        )
    }
}

/// The lines on one application. A block takes precedence over the caps.
pub open spec fn rule_lines(r: RuleModel) -> Seq<char> {
    let g = r.group;
    if r.blocked {
        drop_line("input"@, g) + drop_line("output"@, g)
    } else {
        (match r.down_bps {
            Some(bps) => police_lines("input"@, g, clauses(r.scope, "saddr"@), bps),
            None => Seq::empty(),
        }) + (match r.up_bps {
            Some(bps) => police_lines("output"@, g, clauses(r.scope, "daddr"@), bps),
            None => Seq::empty(),
        })
    }
}

/// The lines on all applications.
pub open spec fn all_rule_lines(rules: Seq<RuleModel>) -> Seq<char>
    decreases rules.len(),
{
    if rules.len() == 0 {
        Seq::empty()
    } else {
        all_rule_lines(rules.drop_last()) + rule_lines(rules.last())
    }
}

/// Create the table, empty it, and add its chains.
pub open spec fn preamble() -> Seq<char> {
    "add table inet curb\n"@ + "flush table inet curb\n"@
        + "add chain inet curb input { type filter hook input priority -150; }\n"@
        + "add chain inet curb output { type filter hook output priority -150; }\n"@
}

/// The script that replaces the table.
pub open spec fn script(rules: Seq<RuleModel>) -> Seq<char> {
    preamble() + all_rule_lines(rules)
}

fn push_head(s: &mut String, hook: &str, group: &str)
    ensures
        final(s)@ == old(s)@ + rule_head(hook@, group@),
{
    s.append("add rule inet curb ");
    s.append(hook);
    s.append(" socket cgroupv2 level ");
    let level: String = dec(APP_LEVEL as u64);
    s.append(level.as_str());
    s.append(" \"");
    s.append(group);
    s.append("\" ");
    assert(s@ =~= old(s)@ + rule_head(hook@, group@));
}

fn push_police(s: &mut String, hook: &str, group: &str, matching: &Vec<String>, bps: u64)
    ensures
        final(s)@ == old(s)@ + police_lines(hook@, group@, matching.deep_view(), bps),
{
    let ghost m = matching.deep_view();
    let ghost start = s@;
    assert(m.take(0) =~= Seq::<Seq<char>>::empty());
    assert(s@ =~= start + police_lines(hook@, group@, m.take(0), bps));
    for i in 0..matching.len()
        invariant
            m == matching.deep_view(),
            s@ == start + police_lines(hook@, group@, m.take(i as int), bps),
    {
        let ghost before = s@;
        assert(m.take(i + 1).drop_last() =~= m.take(i as int));
        assert(m.take(i + 1).last() == matching@[i as int]@);
        push_head(s, hook, group);
        s.append(matching[i].as_str());
        s.append("limit rate over ");
        let rate: String = dec(bps);
        s.append(rate.as_str());
        s.append(" bytes/second burst ");
        let b: String = dec(burst(bps));
        s.append(b.as_str());
        s.append(" bytes drop\n");
        assert(s@ =~= before + police_line(hook@, group@, m[i as int], bps));
        assert(s@ =~= start + police_lines(hook@, group@, m.take(i + 1), bps));
    }
    assert(m.take(matching@.len() as int) =~= m);
}

fn push_rule(s: &mut String, r: &AppRule)
    ensures
        final(s)@ == old(s)@ + rule_lines(r@),
{
    let group: &str = r.cgroup_rel.as_str();
    if r.blocked {
        push_head(s, "input", group);
        s.append("drop\n");
        push_head(s, "output", group);
        s.append("drop\n");
    } else {
        match r.down_bps {
            Some(bps) => {
                push_police(s, "input", group, &scope_clauses(r.scope, "saddr"), bps);
            },
            None => {},
        }
        match r.up_bps {
            Some(bps) => {
                push_police(s, "output", group, &scope_clauses(r.scope, "daddr"), bps);
            },
            None => {},
        }
    }
    assert(s@ =~= old(s)@ + rule_lines(r@));
}

/// Write the script that replaces the whole table by the given rules.
pub fn apply(rules: &Vec<AppRule>) -> (r: String)
    ensures
        r@ == script(rule_models(rules@)),
{
    let ghost m = rule_models(rules@);
    let mut s: String = "add table inet curb\n".to_string();
    s.append("flush table inet curb\n");
    s.append("add chain inet curb input { type filter hook input priority -150; }\n");
    s.append("add chain inet curb output { type filter hook output priority -150; }\n");
    assert(s@ =~= preamble());
    assert(m.take(0) =~= Seq::<RuleModel>::empty());
    assert(s@ =~= script(m.take(0)));
    for i in 0..rules.len()
        invariant
            m == rule_models(rules@),
            s@ == script(m.take(i as int)),
    {
        assert(m.take(i + 1).drop_last() =~= m.take(i as int));
        assert(m.take(i + 1).last() == rules@[i as int]@);
        push_rule(&mut s, &rules[i]);
        assert(s@ =~= script(m.take(i + 1)));
    }
    assert(m.take(rules@.len() as int) =~= m);
    s
}

/// A blocked application is dropped on both hooks, whatever its caps and scope.
pub proof fn law_block_takes_precedence(r: RuleModel)
    requires
        r.blocked,
    ensures
        rule_lines(r) == drop_line("input"@, r.group) + drop_line("output"@, r.group),
{
}

/// An application without caps that is not blocked is left alone.
pub proof fn law_no_cap_no_rule(r: RuleModel)
    requires
        !r.blocked,
        r.down_bps is None,
        r.up_bps is None,
    ensures
        rule_lines(r).len() == 0,
{
}

/// The two zones are complements: for each family, the match on everything else is
/// the negation of the match on the local ranges.
pub proof fn law_zones_are_complements(field: Seq<char>)
    ensures
        clauses(Scope::Lan, field).len() == clauses(Scope::Internet, field).len(),
        forall|i: int|
            #![trigger clauses(Scope::Lan, field)[i]]
            0 <= i < clauses(Scope::Lan, field).len() ==> exists|
                family: Seq<char>,
                ranges: Seq<char>,
            |
                clauses(Scope::Lan, field)[i] == #[trigger] clause(family, field, false, ranges)
                    && clauses(Scope::Internet, field)[i] == clause(family, field, true, ranges),
{
    assert(clauses(Scope::Lan, field)[0] == clause("ip"@, field, false, V4_PRIVATE@));
    assert(clauses(Scope::Lan, field)[1] == clause("ip6"@, field, false, V6_PRIVATE@));
}

/// The script is the preamble and then, in order, the lines of every rule: a further
/// rule adds its lines to those of the others, and takes none away.
pub proof fn law_every_rule_adds_its_lines(rules: Seq<RuleModel>, r: RuleModel)
    ensures
        script(Seq::empty()) == "add table inet curb\n"@ + "flush table inet curb\n"@
            + "add chain inet curb input { type filter hook input priority -150; }\n"@
            + "add chain inet curb output { type filter hook output priority -150; }\n"@,
        script(rules.push(r)) == script(rules) + rule_lines(r),
{
    assert(script(Seq::empty()) =~= preamble());
    assert(rules.push(r).drop_last() =~= rules);
    assert(script(rules.push(r)) =~= script(rules) + rule_lines(r));
}

/// The lines of every rule stand in the script, at whatever place the rule stands
/// among the others.
pub proof fn law_script_holds_every_rule(rules: Seq<RuleModel>, i: int)
    requires
        0 <= i < rules.len(),
    ensures
        exists|before: Seq<char>, after: Seq<char>|
            script(rules) == #[trigger] (before + rule_lines(rules[i]) + after),
    decreases rules.len(),
{
    let rest = rules.drop_last();
    law_every_rule_adds_its_lines(rest, rules.last());
    assert(rest.push(rules.last()) =~= rules);
    if i == rules.len() - 1 {
        let after = Seq::<char>::empty();
        assert(script(rules) =~= script(rest) + rule_lines(rules[i]) + after);
    } else {
        law_script_holds_every_rule(rest, i);
        let (before, after) = choose|before: Seq<char>, after: Seq<char>|
            script(rest) == #[trigger] (before + rule_lines(rest[i]) + after);
        let longer = after + rule_lines(rules.last());
        assert(script(rules) =~= before + rule_lines(rules[i]) + longer);
    }
}

/// A blocked application is dropped on both hooks, in the words of the packet filter.
pub proof fn law_blocked_application_is_dropped(r: RuleModel)
    requires
        r.blocked,
    ensures
        rule_lines(r) == "add rule inet curb input socket cgroupv2 level 2 \""@ + r.group
            + "\" drop\n"@ + "add rule inet curb output socket cgroupv2 level 2 \""@ + r.group
            + "\" drop\n"@,
{
    lemma_head_text("input"@, r.group);
    lemma_head_text("output"@, r.group);
    reveal_strlit("drop\n");
    reveal_strlit("\" drop\n");
    reveal_strlit("input");
    reveal_strlit("output");
    reveal_strlit("add rule inet curb ");
    reveal_strlit(" socket cgroupv2 level 2 \"");
    reveal_strlit("\" ");
    reveal_strlit("add rule inet curb input socket cgroupv2 level 2 \"");
    reveal_strlit("add rule inet curb output socket cgroupv2 level 2 \"");
    assert("add rule inet curb input socket cgroupv2 level 2 \""@ =~= "add rule inet curb "@
        + "input"@ + " socket cgroupv2 level 2 \""@);
    assert("add rule inet curb output socket cgroupv2 level 2 \""@ =~= "add rule inet curb "@
        + "output"@ + " socket cgroupv2 level 2 \""@);
    assert("\" drop\n"@ =~= "\" "@ + "drop\n"@);
    assert(rule_lines(r) =~= "add rule inet curb input socket cgroupv2 level 2 \""@ + r.group
        + "\" drop\n"@ + "add rule inet curb output socket cgroupv2 level 2 \""@ + r.group
        + "\" drop\n"@);
}

proof fn lemma_head_text(hook: Seq<char>, group: Seq<char>)
    ensures
        rule_head(hook, group) == "add rule inet curb "@ + hook + " socket cgroupv2 level 2 \""@
            + group + "\" "@,
{
    reveal_strlit(" socket cgroupv2 level ");
    reveal_strlit(" \"");
    reveal_strlit(" socket cgroupv2 level 2 \"");
    reveal_with_fuel(crate::number::numeral, 2);
    assert(decimal(2) =~= seq!['2']);
    assert(" socket cgroupv2 level 2 \""@ =~= " socket cgroupv2 level "@ + decimal(2) + " \""@);
    assert(rule_head(hook, group) =~= "add rule inet curb "@ + hook
        + " socket cgroupv2 level 2 \""@ + group + "\" "@);
}

/// The burst of a cap is a quarter of it, in whole bytes, but at least 65536 bytes.
pub proof fn law_burst_is_a_quarter_second(bps: u64)
    ensures
        burst_of(bps) >= 65536,
        bps >= 262144 ==> bps - 4 * burst_of(bps) < 4 && 4 * burst_of(bps) <= bps,
        bps < 262144 ==> burst_of(bps) == 65536,
{
}

/// Each direction of an application is policed on its own: the lines for a download
/// cap come first, then those for an upload cap.
pub proof fn law_directions_are_policed_apart(r: RuleModel)
    requires
        !r.blocked,
    ensures
        rule_lines(r) == rule_lines(RuleModel { up_bps: None, ..r }) + rule_lines(
            RuleModel { down_bps: None, ..r },
        ),
{
    assert(rule_lines(r) =~= rule_lines(RuleModel { up_bps: None, ..r }) + rule_lines(
        RuleModel { down_bps: None, ..r },
    ));
}

/// A cap on all remote addresses is one line, on the hook of its direction, that drops
/// what is over the cap.
pub proof fn law_unscoped_cap_is_policed(r: RuleModel, bps: u64)
    requires
        !r.blocked,
        r.scope == Scope::Both,
    ensures
        r.down_bps == Some(bps) && r.up_bps is None ==> rule_lines(r)
            == "add rule inet curb "@ + "input"@ + " socket cgroupv2 level 2 \""@ + r.group
            + "\" "@ + "limit rate over "@ + decimal(bps as nat) + " bytes/second burst "@
            + decimal(burst_of(bps) as nat) + " bytes drop\n"@,
        r.up_bps == Some(bps) && r.down_bps is None ==> rule_lines(r)
            == "add rule inet curb "@ + "output"@ + " socket cgroupv2 level 2 \""@ + r.group
            + "\" "@ + "limit rate over "@ + decimal(bps as nat) + " bytes/second burst "@
            + decimal(burst_of(bps) as nat) + " bytes drop\n"@,
{
    lemma_head_text("input"@, r.group);
    lemma_head_text("output"@, r.group);
    reveal_with_fuel(police_lines, 3);
    let one = seq![Seq::<char>::empty()];
    assert(one.drop_last() =~= Seq::<Seq<char>>::empty());
    if r.down_bps == Some(bps) && r.up_bps is None {
        assert(rule_lines(r) =~= "add rule inet curb "@ + "input"@
            + " socket cgroupv2 level 2 \""@ + r.group + "\" "@ + "limit rate over "@ + decimal(
            bps as nat,
        ) + " bytes/second burst "@ + decimal(burst_of(bps) as nat) + " bytes drop\n"@);
    }
    if r.up_bps == Some(bps) && r.down_bps is None {
        assert(rule_lines(r) =~= "add rule inet curb "@ + "output"@
            + " socket cgroupv2 level 2 \""@ + r.group + "\" "@ + "limit rate over "@ + decimal(
            bps as nat,
        ) + " bytes/second burst "@ + decimal(burst_of(bps) as nat) + " bytes drop\n"@);
    }
}

/// A cap on one zone is two lines, one for each family of addresses: each matches the
/// remote address, the source of downloads and the destination of uploads, against the
/// local ranges, or against everything but these.
pub proof fn law_scoped_cap_is_policed(r: RuleModel, bps: u64)
    requires
        !r.blocked,
        r.scope != Scope::Both,
    ensures
        ({
            let is = if r.scope == Scope::Lan {
                " { "@
            } else {
                " != { "@
            };
            let v4 = "127.0.0.0/8, 10.0.0.0/8, 172.16.0.0/12, 192.168.0.0/16, 169.254.0.0/16, 100.64.0.0/10"@;
            let v6 = "::1, fc00::/7, fe80::/10"@;
            let line = |hook: Seq<char>, family: Seq<char>, end: Seq<char>, ranges: Seq<char>|
                "add rule inet curb "@ + hook + " socket cgroupv2 level 2 \""@ + r.group + "\" "@
                    + (family + " "@ + end + is + ranges + " } "@) + "limit rate over "@
                    + decimal(bps as nat) + " bytes/second burst "@ + decimal(burst_of(bps) as nat)
                    + " bytes drop\n"@;
            &&& r.down_bps == Some(bps) && r.up_bps is None ==> rule_lines(r) == line(
                "input"@,
                "ip"@,
                "saddr"@,
                v4,
            ) + line("input"@, "ip6"@, "saddr"@, v6)
            &&& r.up_bps == Some(bps) && r.down_bps is None ==> rule_lines(r) == line(
                "output"@,
                "ip"@,
                "daddr"@,
                v4,
            ) + line("output"@, "ip6"@, "daddr"@, v6)
        }),
{
    lemma_head_text("input"@, r.group);
    lemma_head_text("output"@, r.group);
    if r.down_bps == Some(bps) && r.up_bps is None {
        let c = clauses(r.scope, "saddr"@);
        lemma_two_lines("input"@, r.group, c, bps);
        assert(rule_lines(r) =~= police_lines("input"@, r.group, c, bps));
    }
    if r.up_bps == Some(bps) && r.down_bps is None {
        let c = clauses(r.scope, "daddr"@);
        lemma_two_lines("output"@, r.group, c, bps);
        assert(rule_lines(r) =~= police_lines("output"@, r.group, c, bps));
    }
}

proof fn lemma_two_lines(hook: Seq<char>, group: Seq<char>, c: Seq<Seq<char>>, bps: u64)
    requires
        c.len() == 2,
    ensures
        police_lines(hook, group, c, bps) == police_line(hook, group, c[0], bps) + police_line(
            hook,
            group,
            c[1],
            bps,
        ),
{
    reveal_with_fuel(police_lines, 4);
    let one = c.drop_last();
    assert(one.drop_last() =~= Seq::<Seq<char>>::empty());
    assert(one.last() == c[0]);
    assert(police_lines(hook, group, c, bps) =~= police_line(hook, group, c[0], bps) + police_line(
        hook,
        group,
        c[1],
        bps,
    ));
}

/// Every rule that is handed over counts, with all that it says.
pub proof fn law_rules_are_taken_as_given(rules: Seq<AppRule>, i: int)
    requires
        0 <= i < rules.len(),
    ensures
        rule_models(rules).len() == rules.len(),
        rule_models(rules)[i].group == rules[i].cgroup_rel@,
        rule_models(rules)[i].down_bps == rules[i].down_bps,
        rule_models(rules)[i].up_bps == rules[i].up_bps,
        rule_models(rules)[i].scope == rules[i].scope,
        rule_models(rules)[i].blocked == rules[i].blocked,
{
}

} // verus!
