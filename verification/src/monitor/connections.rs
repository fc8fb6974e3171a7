//! The list of connections, each with the application that owns it.

use vstd::prelude::*;

use crate::monitor::procmap::{
    net_row, parse_net_row, table_body, NetRow, Owner, Proto, SocketOwners,
};
use crate::number::{dec, decimal, parse_unsigned, unsigned};
use crate::proto::ConnectionInfo;
use crate::text::{base_of, basename, lines, split_whitespace, text_lines, words};

verus! {

/// A socket and its owner.
pub struct Socket {
    pub proto: Proto,
    pub row: NetRow,
    /// Number of the TCP state, zero where it cannot be read.
    pub state: u64,
    pub owner: Option<Owner>,
}

/// The number of the TCP state in a line of a socket table: its fourth field.
pub open spec fn state_number(line: Seq<char>) -> int {
    let w = words(line);
    if w.len() > 3 && unsigned(w[3], 16, u64::MAX as int) is Some {
        unsigned(w[3], 16, u64::MAX as int)->0
    } else {
        0
    }
}

/// The name of a TCP state.
pub open spec fn state_name(state: int) -> Seq<char> {
    if state == 1 {
        "ESTABLISHED"@
    } else if state == 2 {
        "SYN_SENT"@
    } else if state == 3 {
        "SYN_RECV"@
    } else if state == 4 {
        "FIN_WAIT1"@
    } else if state == 5 {
        "FIN_WAIT2"@
    } else if state == 6 {
        "TIME_WAIT"@
    } else if state == 7 {
        "CLOSE"@
    } else if state == 8 {
        "CLOSE_WAIT"@
    } else if state == 9 {
        "LAST_ACK"@
    } else if state == 10 {
        "LISTEN"@
    } else if state == 11 {
        "CLOSING"@
    } else {
        "UNKNOWN"@
    }
}

/// Whether a socket is that of a line of a socket table.
pub open spec fn is_socket(
    s: Socket,
    proto: Proto,
    owners: Map<u64, Owner>,
    line: Seq<char>,
) -> bool {
    &&& s.proto == proto
    &&& net_row(line) == Some(s.row)
    &&& s.state == state_number(line)
    &&& s.owner == if s.row.inode != 0 && owners.dom().contains(s.row.inode) {
        Some(owners[s.row.inode])
    } else {
        None
    }
}

/// The lines of socket tables that are rows, each with its protocol.
pub open spec fn rows(proto: Proto, body: Seq<Seq<char>>) -> Seq<(Proto, Seq<char>)>
    decreases body.len(),
{
    if body.len() == 0 {
        Seq::empty()
    } else {
        let rest = rows(proto, body.drop_last());
        if net_row(body.last()) is Some {
            rest.push((proto, body.last()))
        } else {
            rest
        }
    }
}

/// The rows of several socket tables.
pub open spec fn all_rows(tables: Seq<(Proto, String)>) -> Seq<(Proto, Seq<char>)>
    decreases tables.len(),
{
    if tables.len() == 0 {
        Seq::empty()
    } else {
        all_rows(tables.drop_last()) + rows(tables.last().0, table_body(tables.last().1@))
    }
}

/// Whether sockets are those of rows, in order.
pub open spec fn are_sockets(
    v: Seq<Socket>,
    owners: Map<u64, Owner>,
    r: Seq<(Proto, Seq<char>)>,
) -> bool {
    &&& v.len() == r.len()
    &&& forall|i: int|
        0 <= i < v.len() ==> is_socket(#[trigger] v[i], r[i].0, owners, r[i].1)
}

fn read_state(line: &str) -> (r: u64)
    ensures
        r == state_number(line@),
{
    let w: Vec<String> = split_whitespace(line);
    assert(w.deep_view() == words(line@));
    if w.len() > 3 {
        assert(w@[3]@ == words(line@)[3]);
        match parse_unsigned(w[3].as_str(), 16, u64::MAX) {
            Some(n) => n,
            None => 0,
        }
    } else {
        0
    }
}

fn list_table(content: &str, proto: Proto, owners: &SocketOwners, out: &mut Vec<Socket>)
    requires
        owners.wf(),
    ensures
        forall|r: Seq<(Proto, Seq<char>)>| #[trigger]
            are_sockets(old(out)@, owners.by_inode@, r) ==> are_sockets(
                final(out)@,
                owners.by_inode@,
                r + rows(proto, table_body(content@)),
            ),
{
    let all: Vec<String> = lines(content);
    let ghost body = table_body(content@);
    let ghost start = out@;
    let ghost by = owners.by_inode@;
    assert(all.deep_view() == text_lines(content@));
    assert(body.take(0) =~= Seq::<Seq<char>>::empty());
    proof {
        assert forall|r: Seq<(Proto, Seq<char>)>| #[trigger]
            are_sockets(start, by, r) implies are_sockets(out@, by, r + rows(proto, body.take(0))) by {
            assert(r + rows(proto, body.take(0)) =~= r);
        }
    }
    if all.len() > 0 {
        for i in 1..all.len()
            invariant
                owners.wf(),
                by == owners.by_inode@,
                all.deep_view() == text_lines(content@),
                body == table_body(content@),
                body.len() == all.len() - 1,
                forall|r: Seq<(Proto, Seq<char>)>| #[trigger]
                    are_sockets(start, by, r) ==> are_sockets(
                        out@,
                        by,
                        r + rows(proto, body.take(i - 1)),
                    ),
        {
            let ghost before = out@;
            let ghost prev = rows(proto, body.take(i - 1));
            assert(body.take(i as int).drop_last() =~= body.take(i - 1));
            assert(body[i - 1] == all@[i as int]@);
            assert(body.take(i as int).last() == all@[i as int]@);
            match parse_net_row(all[i].as_str()) {
                Some(row) => {
                    let owner: Option<Owner> = if row.inode != 0 {
                        match owners.by_inode.get(&row.inode) {
                            Some(o) => Some(o.clone()),
                            None => None,
                        }
                    } else {
                        None
                    };
                    let s: Socket = Socket { proto, row, state: read_state(all[i].as_str()), owner };
                    let ghost sm = s;
                    out.push(s);
                    proof {
                        assert(is_socket(sm, proto, by, all@[i as int]@));
                        assert forall|r: Seq<(Proto, Seq<char>)>| #[trigger]
                            are_sockets(start, by, r) implies are_sockets(
                            out@,
                            by,
                            r + rows(proto, body.take(i as int)),
                        ) by {
                            assert(are_sockets(before, by, r + prev));
                            let longer = r + rows(proto, body.take(i as int));
                            assert(longer =~= (r + prev).push((proto, all@[i as int]@)));
                            assert forall|k: int| 0 <= k < out@.len() implies is_socket(
                                #[trigger] out@[k],
                                longer[k].0,
                                by,
                                longer[k].1,
                            ) by {
                                if k < before.len() {
                                    assert(out@[k] == before[k]);
                                    assert(longer[k] == (r + prev)[k]);
                                }
                            }
                        }
                    }
                },
                None => {},
            }
        }
        assert(body.take(all.len() - 1) =~= body);
    }
}

/// List every socket of the socket tables with its owner, in order.
pub fn list_connections(owners: &SocketOwners, tables: &Vec<(Proto, String)>) -> (r: Vec<Socket>)
    requires
        owners.wf(),
    ensures
        are_sockets(r@, owners.by_inode@, all_rows(tables@)),
{
    let mut out: Vec<Socket> = Vec::new();
    assert(tables@.take(0) =~= Seq::<(Proto, String)>::empty());
    for i in 0..tables.len()
        invariant
            owners.wf(),
            are_sockets(out@, owners.by_inode@, all_rows(tables@.take(i as int))),
    {
        assert(tables@.take(i + 1).drop_last() =~= tables@.take(i as int));
        list_table(tables[i].1.as_str(), tables[i].0, owners, &mut out);
    }
    assert(tables@.take(tables@.len() as int) =~= tables@);
    out
}

fn state_text(state: u64) -> (r: String)
    ensures
        r@ == state_name(state as int),
{
    let s: &str = if state == 1 {
        "ESTABLISHED"
    } else if state == 2 {
        "SYN_SENT"
    } else if state == 3 {
        "SYN_RECV"
    } else if state == 4 {
        "FIN_WAIT1"
    } else if state == 5 {
        "FIN_WAIT2"
    } else if state == 6 {
        "TIME_WAIT"
    } else if state == 7 {
        "CLOSE"
    } else if state == 8 {
        "CLOSE_WAIT"
    } else if state == 9 {
        "LAST_ACK"
    } else if state == 10 {
        "LISTEN"
    } else if state == 11 {
        "CLOSING"
    } else {
        "UNKNOWN"
    };
    s.to_string()
}

/// An address and a port.
pub open spec fn endpoint_text(ip: Seq<char>, port: u16) -> Seq<char> {
    ip + ":"@ + decimal(port as nat)
}

fn endpoint(ip: &str, port: u16) -> (r: String)
    ensures
        r@ == endpoint_text(ip@, port),
{
    let mut r: String = ip.to_string();
    r.append(":");
    let p: String = dec(port as u64);
    r.append(p.as_str());
    r
}

/// Describe a socket, given its two addresses as text.
pub fn describe(s: &Socket, local_ip: &str, rem_ip: &str) -> (r: ConnectionInfo)
    ensures
        r.exe@ == match s.owner {
            Some(o) => o.exe@,
            None => Seq::empty(),
        },
        r.name@ == match s.owner {
            Some(o) => base_of(o.exe@),
            None => "?"@,
        },
        r.pid == match s.owner {
            Some(o) => o.pid,
            None => 0u32,
        },
        r.proto@ == match s.proto {
            Proto::Tcp => "TCP"@,
            Proto::Udp => "UDP"@,
        },
        r.local_addr@ == endpoint_text(local_ip@, s.row.local_port),
        r.remote_addr@ == endpoint_text(rem_ip@, s.row.rem_port),
        r.state@ == match s.proto {
            Proto::Tcp => state_name(s.state as int),
            Proto::Udp => "UDP"@,
        },
{
    let (exe, name, pid): (String, String, u32) = match &s.owner {
        Some(o) => (o.exe.clone(), basename(o.exe.as_str()), o.pid),
        None => (String::new(), "?".to_string(), 0),
    };
    let (proto, state): (String, String) = match s.proto {
        Proto::Tcp => ("TCP".to_string(), state_text(s.state)),
        Proto::Udp => ("UDP".to_string(), "UDP".to_string()),
    };
    ConnectionInfo {
        exe,
        name,
        pid,
        proto,
        local_addr: endpoint(local_ip, s.row.local_port),
        remote_addr: endpoint(rem_ip, s.row.rem_port),
        state,
    }
}

// ---- Laws --------------------------------------------------------------------

/// Every table is listed: the rows of tables and of further tables are the rows of all.
pub proof fn law_tables_are_all_listed(a: Seq<(Proto, String)>, b: Seq<(Proto, String)>)
    ensures
        all_rows(a + b) == all_rows(a) + all_rows(b),
        all_rows(Seq::empty()) == Seq::<(Proto, Seq<char>)>::empty(),
    decreases b.len(),
{
    if b.len() == 0 {
        assert(a + b =~= a);
        assert(all_rows(a + b) =~= all_rows(a) + all_rows(b));
    } else {
        law_tables_are_all_listed(a, b.drop_last());
        assert((a + b).drop_last() =~= a + b.drop_last());
        assert((a + b).last() == b.last());
        assert(all_rows(a + b) =~= all_rows(a) + all_rows(b));
    }
}

/// Every line of a table that is a row is listed, and no other line is.
pub proof fn law_rows_are_all_listed(proto: Proto, body: Seq<Seq<char>>, line: Seq<char>)
    ensures
        rows(proto, Seq::empty()) == Seq::<(Proto, Seq<char>)>::empty(),
        net_row(line) is Some ==> rows(proto, body.push(line)) == rows(proto, body).push(
            (proto, line),
        ),
        net_row(line) is None ==> rows(proto, body.push(line)) == rows(proto, body),
{
    assert(body.push(line).drop_last() =~= body);
}

proof fn lemma_row_listed(proto: Proto, body: Seq<Seq<char>>, i: int)
    requires
        0 <= i < body.len(),
        net_row(body[i]) is Some,
    ensures
        rows(proto, body).contains((proto, body[i])),
    decreases body.len(),
{
    let all = rows(proto, body);
    let x = (proto, body[i]);
    if i == body.len() - 1 {
        assert(all[all.len() - 1] == x);
    } else {
        let rest = body.drop_last();
        assert(rest[i] == body[i]);
        lemma_row_listed(proto, rest, i);
        let j = choose|j: int| 0 <= j < rows(proto, rest).len() && rows(proto, rest)[j] == x;
        assert(all[j] == x);
    }
}

proof fn lemma_table_row_listed(tables: Seq<(Proto, String)>, k: int, i: int)
    requires
        0 <= k < tables.len(),
        1 <= i < text_lines(tables[k].1@).len(),
        net_row(text_lines(tables[k].1@)[i]) is Some,
    ensures
        all_rows(tables).contains((tables[k].0, text_lines(tables[k].1@)[i])),
    decreases tables.len(),
{
    let all = all_rows(tables);
    let rest = all_rows(tables.drop_last());
    let last = rows(tables.last().0, table_body(tables.last().1@));
    let x = (tables[k].0, text_lines(tables[k].1@)[i]);
    if k == tables.len() - 1 {
        let body = table_body(tables[k].1@);
        assert(body =~= text_lines(tables[k].1@).skip(1));
        lemma_row_listed(tables[k].0, body, i - 1);
        let j = choose|j: int| 0 <= j < last.len() && last[j] == x;
        assert(all[rest.len() + j] == x);
    } else {
        assert(tables.drop_last()[k] == tables[k]);
        lemma_table_row_listed(tables.drop_last(), k, i);
        let j = choose|j: int| 0 <= j < rest.len() && rest[j] == x;
        assert(all[j] == x);
    }
}

/// Every row of every table is listed as a socket, with its protocol, its endpoints, the
/// number of its state, and its owner, if that is known.
pub proof fn law_every_socket_is_listed(
    v: Seq<Socket>,
    owners: Map<u64, Owner>,
    tables: Seq<(Proto, String)>,
    k: int,
    i: int,
)
    requires
        are_sockets(v, owners, all_rows(tables)),
        0 <= k < tables.len(),
        1 <= i < text_lines(tables[k].1@).len(),
        net_row(text_lines(tables[k].1@)[i]) is Some,
    ensures
        ({
            let line = text_lines(tables[k].1@)[i];
            let row = net_row(line)->0;
            exists|j: int|
                {
                    &&& 0 <= j < v.len()
                    &&& (#[trigger] v[j]).proto == tables[k].0
                    &&& v[j].row == row
                    &&& v[j].state == state_number(line)
                    &&& row.inode != 0 && owners.dom().contains(row.inode) ==> v[j].owner == Some(
                        owners[row.inode],
                    )
                    &&& row.inode == 0 || !owners.dom().contains(row.inode) ==> v[j].owner is None
                }
        }),
{
    lemma_table_row_listed(tables, k, i);
    let x = (tables[k].0, text_lines(tables[k].1@)[i]);
    let all = all_rows(tables);
    let j = choose|j: int| 0 <= j < all.len() && all[j] == x;
    assert(is_socket(v[j], all[j].0, owners, all[j].1));
}

/// The state of a socket is the number in hexadecimal in the fourth field of its line.
pub proof fn law_state_is_the_fourth_field(line: Seq<char>)
    ensures
        words(line).len() > 3 && unsigned(words(line)[3], 16, u64::MAX as int) is Some
            ==> state_number(line) == unsigned(words(line)[3], 16, u64::MAX as int)->0,
        words(line).len() <= 3 || unsigned(words(line)[3], 16, u64::MAX as int) is None
            ==> state_number(line) == 0,
{
}

/// The states of the kernel have their usual names, and no other number has one.
pub proof fn law_states_have_names(state: int)
    ensures
        ({
            let names = seq![
                "ESTABLISHED"@,
                "SYN_SENT"@,
                "SYN_RECV"@,
                "FIN_WAIT1"@,
                "FIN_WAIT2"@,
                "TIME_WAIT"@,
                "CLOSE"@,
                "CLOSE_WAIT"@,
                "LAST_ACK"@,
                "LISTEN"@,
                "CLOSING"@,
            ];
            &&& 1 <= state <= 11 ==> state_name(state) == names[state - 1]
            &&& !(1 <= state <= 11) ==> state_name(state) == "UNKNOWN"@
        }),
{
}

/// An endpoint is shown as its address, a colon and its port.
pub proof fn law_endpoint_is_shown(ip: Seq<char>, port: u16)
    ensures
        endpoint_text(ip, port) == ip + seq![':'] + decimal(port as nat),
{
    reveal_strlit(":");
    assert(":"@ =~= seq![':']);
}

} // verus!
