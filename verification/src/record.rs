//! The on-disk record format for a server.
//!
//! A persisted record is one line of JSON holding every field of the
//! server, in fixed order and canonical form: the identifier as 32
//! lower-case hexadecimal digits, the name escaped as [`crate::escape`]
//! says, the capacity figures in canonical decimal, the status as its
//! label, and the attached disks as an array of objects. [`encode_record_spec`]
//! is the format's definition, and parsing is verified exact: it accepts
//! the encodings and nothing else, and a record read back yields the very
//! server that was written. A text that is not a record is reported as
//! corrupt, never skipped.

use vstd::prelude::*;
use vstd::string::StrSliceExecFns;
use vstd::string::StringExecFns;
use crate::domain::Disk;
use crate::domain::Server;
use crate::domain::ServerStatus;
use crate::domain::ServerView;
use crate::escape::escape_seq;
use crate::escape::parse_body_spec;
use crate::escape::parse_body_chars;
use crate::escape::push_escaped;
use crate::numerals::dec_digits;
use crate::numerals::hex_fixed;
use crate::numerals::parse_hex32_spec;
use crate::numerals::parse_hex32_chars;
use crate::numerals::parse_u32_spec;
use crate::numerals::parse_u32_chars;
use crate::numerals::push_dec_u64;
use crate::numerals::push_hex32;
use crate::numerals::digit_run_len;
use crate::numerals::lemma_digit_run;
use crate::text::str_chars;
use crate::text::string_from_chars;

verus! {

/// The status labels written into a record.
pub open spec fn status_label(st: ServerStatus) -> Seq<char> {
    match st {
        ServerStatus::Provisioning => "Provisioning"@,
        ServerStatus::Running => "Running"@,
        ServerStatus::Stopped => "Stopped"@,
        ServerStatus::Terminated => "Terminated"@,
    }
}

/// The record text for one attached disk.
pub open spec fn encode_disk_spec(d: Disk) -> Seq<char> {
    "{\"id\":\""@ + (hex_fixed(d.id as nat, 32) + ("\",\"size_gb\":"@ + (dec_digits(
        d.size_gb as nat,
    ) + "}"@)))
}

/// The record text for a disk list: the disks in order, separated by
/// commas.
pub open spec fn encode_disks_spec(ds: Seq<Disk>) -> Seq<char>
    decreases ds.len(),
{
    if ds.len() == 0 {
        Seq::empty()
    } else if ds.len() == 1 {
        encode_disk_spec(ds[0])
    } else {
        encode_disks_spec(ds.drop_last()) + ","@ + encode_disk_spec(ds.last())
    }
}

/// The capacity part of a record: the three figures with their keys,
/// starting at the quote that closes the name field.
pub open spec fn encode_capacities_spec(cpu: u32, ram: u32, storage: u32) -> Seq<char> {
    "\",\"cpu_cores\":"@ + (dec_digits(cpu as nat) + (",\"ram_gb\":"@ + (dec_digits(ram as nat)
        + (",\"storage_gb\":"@ + dec_digits(storage as nat)))))
}

/// The trailing part of a record: the status and the disk array, up to the
/// closing brace.
pub open spec fn encode_trailer_spec(st: ServerStatus, ds: Seq<Disk>) -> Seq<char> {
    ",\"status\":\""@ + (status_label(st) + ("\",\"additional_disks\":["@ + (encode_disks_spec(ds)
        + "]}"@)))
}

/// The full record text for a server.
pub open spec fn encode_record_spec(sv: ServerView) -> Seq<char> {
    "{\"id\":\""@ + (hex_fixed(sv.id as nat, 32) + ("\",\"name\":\""@ + (escape_seq(sv.name)
        + (encode_capacities_spec(sv.cpu_cores, sv.ram_gb, sv.storage_gb) + encode_trailer_spec(
        sv.status,
        sv.additional_disks,
    )))))
}

/// Matching a fixed piece of text at `pos`.
pub open spec fn expect_spec(t: Seq<char>, pos: int, lit: Seq<char>) -> Option<int> {
    if 0 <= pos && pos + lit.len() <= t.len() && t.subrange(pos, pos + lit.len()) == lit {
        Some(pos + lit.len())
    } else {
        None
    }
}

/// Matching one of the four status labels at `pos`.
pub open spec fn parse_status_spec(t: Seq<char>, pos: int) -> Option<(ServerStatus, int)> {
    if expect_spec(t, pos, "Provisioning"@) is Some {
        Some((ServerStatus::Provisioning, expect_spec(t, pos, "Provisioning"@).unwrap()))
    } else if expect_spec(t, pos, "Running"@) is Some {
        Some((ServerStatus::Running, expect_spec(t, pos, "Running"@).unwrap()))
    } else if expect_spec(t, pos, "Stopped"@) is Some {
        Some((ServerStatus::Stopped, expect_spec(t, pos, "Stopped"@).unwrap()))
    } else if expect_spec(t, pos, "Terminated"@) is Some {
        Some((ServerStatus::Terminated, expect_spec(t, pos, "Terminated"@).unwrap()))
    } else {
        None
    }
}

/// Parsing one disk object at `pos`.
pub open spec fn parse_disk_spec(t: Seq<char>, pos: int) -> Option<(Disk, int)> {
    match expect_spec(t, pos, "{\"id\":\""@) {
        None => None,
        Some(p1) => match parse_hex32_spec(t, p1) {
            None => None,
            Some((id, p2)) => match expect_spec(t, p2, "\",\"size_gb\":"@) {
                None => None,
                Some(p3) => match parse_u32_spec(t, p3) {
                    None => None,
                    Some((size, p4)) => match expect_spec(t, p4, "}"@) {
                        None => None,
                        Some(p5) => Some((Disk { id, size_gb: size }, p5)),
                    },
                },
            },
        },
    }
}

pub proof fn lemma_parse_disk_bounds(t: Seq<char>, pos: int)
    ensures
        match parse_disk_spec(t, pos) {
            Some((d, p)) => pos < p <= t.len(),
            None => true,
        },
{
    if parse_disk_spec(t, pos) is Some {
        let p1 = expect_spec(t, pos, "{\"id\":\""@).unwrap();
        let (id, p2) = parse_hex32_spec(t, p1).unwrap();
        let p3 = expect_spec(t, p2, "\",\"size_gb\":"@).unwrap();
        let (size, p4) = parse_u32_spec(t, p3).unwrap();
        reveal_strlit("{\"id\":\"");
        reveal_strlit("\",\"size_gb\":");
        reveal_strlit("}");
        lemma_digit_run(t, p3);
        assert(digit_run_len(t, p3) > 0);
    }
}

/// Parsing one or more comma-separated disk objects followed by the
/// closing bracket, which it consumes. A comma must be followed by
/// another disk.
pub open spec fn parse_disk_list_spec(t: Seq<char>, pos: int) -> Option<(Seq<Disk>, int)>
    decreases t.len() - pos,
    when 0 <= pos <= t.len()
    via parse_disk_list_spec_dec
{
    match parse_disk_spec(t, pos) {
        None => None,
        Some((d, p)) => {
            if p < t.len() && t[p] == ',' {
                match parse_disk_list_spec(t, p + 1) {
                    None => None,
                    Some((ds, q)) => Some((seq![d] + ds, q)),
                }
            } else if p < t.len() && t[p] == ']' {
                Some((seq![d], p + 1))
            } else {
                None
            }
        },
    }
}

#[via_fn]
proof fn parse_disk_list_spec_dec(t: Seq<char>, pos: int) {
    lemma_parse_disk_bounds(t, pos);
}

/// Parsing the items of the disk array and its closing bracket, which it
/// consumes, starting after the opening bracket.
pub open spec fn parse_disks_spec(t: Seq<char>, pos: int) -> Option<(Seq<Disk>, int)> {
    if pos < t.len() && t[pos] == ']' {
        Some((Seq::empty(), pos + 1))
    } else {
        parse_disk_list_spec(t, pos)
    }
}

/// Parsing the capacity figures, from the quote that closes the name
/// field on.
pub open spec fn parse_capacities_spec(t: Seq<char>, pos: int) -> Option<((u32, u32, u32), int)> {
    match expect_spec(t, pos, "\",\"cpu_cores\":"@) {
        None => None,
        Some(p1) => match parse_u32_spec(t, p1) {
            None => None,
            Some((cpu, p2)) => match expect_spec(t, p2, ",\"ram_gb\":"@) {
                None => None,
                Some(p3) => match parse_u32_spec(t, p3) {
                    None => None,
                    Some((ram, p4)) => match expect_spec(t, p4, ",\"storage_gb\":"@) {
                        None => None,
                        Some(p5) => match parse_u32_spec(t, p5) {
                            None => None,
                            Some((storage, p6)) => Some(((cpu, ram, storage), p6)),
                        },
                    },
                },
            },
        },
    }
}

/// Parsing the status and the disk array, up to and including the closing
/// brace.
pub open spec fn parse_trailer_spec(t: Seq<char>, pos: int) -> Option<
    ((ServerStatus, Seq<Disk>), int),
> {
    match expect_spec(t, pos, ",\"status\":\""@) {
        None => None,
        Some(p1) => match parse_status_spec(t, p1) {
            None => None,
            Some((st, p2)) => match expect_spec(t, p2, "\",\"additional_disks\":["@) {
                None => None,
                Some(p3) => match parse_disks_spec(t, p3) {
                    None => None,
                    Some((ds, p4)) => match expect_spec(t, p4, "}"@) {
                        None => None,
                        Some(p5) => Some(((st, ds), p5)),
                    },
                },
            },
        },
    }
}

/// Parsing a whole record. The result is `Some`, with the encoded value,
/// exactly for the texts that [`encode_record_spec`] produces: see
/// [`lemma_record_round_trip`] and [`lemma_parse_record_sound`].
pub open spec fn parse_record_spec(t: Seq<char>) -> Option<ServerView> {
    match expect_spec(t, 0, "{\"id\":\""@) {
        None => None,
        Some(p1) => match parse_hex32_spec(t, p1) {
            None => None,
            Some((id, p2)) => match expect_spec(t, p2, "\",\"name\":\""@) {
                None => None,
                Some(p3) => match parse_body_spec(t, p3) {
                    None => None,
                    Some((name, p4)) => match parse_capacities_spec(t, p4) {
                        None => None,
                        Some(((cpu, ram, storage), p5)) => match parse_trailer_spec(t, p5) {
                            None => None,
                            Some(((status, disks), p6)) => if p6 == t.len() {
                                Some(
                                    ServerView {
                                        id,
                                        name,
                                        cpu_cores: cpu,
                                        ram_gb: ram,
                                        storage_gb: storage,
                                        status,
                                        additional_disks: disks,
                                    },
                                )
                            } else {
                                None
                            },
                        },
                    },
                },
            },
        },
    }
}

proof fn lemma_peel(t: Seq<char>, pos: int, end: int, piece: Seq<char>, rest: Seq<char>)
    requires
        0 <= pos <= end <= t.len(),
        t.subrange(pos, end) == piece + rest,
    ensures
        pos + piece.len() + rest.len() == end,
        t.subrange(pos, pos + piece.len()) == piece,
        t.subrange(pos + piece.len(), end) == rest,
{
    let w = piece + rest;
    assert(t.subrange(pos, end).len() == end - pos);
    t.lemma_slice_of_slice(pos, end, 0, piece.len() as int);
    assert(w.subrange(0, piece.len() as int) =~= piece);
    t.lemma_slice_of_slice(pos, end, piece.len() as int, end - pos);
    assert(w.subrange(piece.len() as int, end - pos) =~= rest);
}

pub proof fn lemma_parse_status_of_encoding(t: Seq<char>, pos: int, st: ServerStatus)
    requires
        0 <= pos,
        pos + status_label(st).len() <= t.len(),
        t.subrange(pos, pos + status_label(st).len()) == status_label(st),
    ensures
        parse_status_spec(t, pos) == Some((st, pos + status_label(st).len())),
{
    reveal_strlit("Provisioning");
    reveal_strlit("Running");
    reveal_strlit("Stopped");
    reveal_strlit("Terminated");
    let lab = status_label(st);
    assert(t.subrange(pos, pos + lab.len())[0] == t[pos]);
    match st {
        ServerStatus::Provisioning => {
            assert(t[pos] == 'P');
        },
        ServerStatus::Running => {
            assert(t[pos] == 'R');
            if expect_spec(t, pos, "Provisioning"@) is Some {
                assert(t.subrange(pos, pos + 12)[0] == 'P');
                assert(false);
            }
        },
        ServerStatus::Stopped => {
            assert(t[pos] == 'S');
            if expect_spec(t, pos, "Provisioning"@) is Some {
                assert(t.subrange(pos, pos + 12)[0] == 'P');
                assert(false);
            }
            if expect_spec(t, pos, "Running"@) is Some {
                assert(t.subrange(pos, pos + 7)[0] == 'R');
                assert(false);
            }
        },
        ServerStatus::Terminated => {
            assert(t[pos] == 'T');
            if expect_spec(t, pos, "Provisioning"@) is Some {
                assert(t.subrange(pos, pos + 12)[0] == 'P');
                assert(false);
            }
            if expect_spec(t, pos, "Running"@) is Some {
                assert(t.subrange(pos, pos + 7)[0] == 'R');
                assert(false);
            }
            if expect_spec(t, pos, "Stopped"@) is Some {
                assert(t.subrange(pos, pos + 7)[0] == 'S');
                assert(false);
            }
        },
    }
}

pub proof fn lemma_parse_disk_of_encoding(t: Seq<char>, pos: int, d: Disk)
    requires
        0 <= pos,
        pos + encode_disk_spec(d).len() <= t.len(),
        t.subrange(pos, pos + encode_disk_spec(d).len()) == encode_disk_spec(d),
    ensures
        parse_disk_spec(t, pos) == Some((d, pos + encode_disk_spec(d).len())),
{
    let e1 = "{\"id\":\""@;
    let e2 = hex_fixed(d.id as nat, 32);
    let e3 = "\",\"size_gb\":"@;
    let e4 = dec_digits(d.size_gb as nat);
    let e5 = "}"@;
    let r5 = e5;
    let r4 = e4 + r5;
    let r3 = e3 + r4;
    let r2 = e2 + r3;
    let r1 = e1 + r2;
    let end = pos + encode_disk_spec(d).len();
    assert(encode_disk_spec(d) == r1);
    assert(t.subrange(pos, end) == r1);
    lemma_peel(t, pos, end, e1, r2);
    let p1 = pos + e1.len();
    lemma_peel(t, p1, end, e2, r3);
    crate::numerals::lemma_hex_fixed_shape(d.id as nat, 32);
    crate::numerals::lemma_parse_hex32_of_encoding(t, p1, d.id);
    let p2 = p1 + 32;
    lemma_peel(t, p2, end, e3, r4);
    let p3 = p2 + e3.len();
    lemma_peel(t, p3, end, e4, r5);
    let p4 = p3 + e4.len();
    reveal_strlit("}");
    assert(end - p4 == r5.len());
    assert(t.subrange(p4, end)[0] == t[p4]);
    assert(t.subrange(p4, end)[0] == r5[0]);
    assert(t[p4] == '}');
    crate::numerals::lemma_parse_u32_of_encoding(t, p3, d.size_gb);
    assert(expect_spec(t, p4, e5) == Some(end));
}

pub proof fn lemma_encode_disks_head(ds: Seq<Disk>)
    requires
        ds.len() >= 1,
    ensures
        ds.len() == 1 ==> encode_disks_spec(ds) == encode_disk_spec(ds[0]),
        ds.len() >= 2 ==> encode_disks_spec(ds) == encode_disk_spec(ds[0]) + (","@
            + encode_disks_spec(ds.drop_first())),
    decreases ds.len(),
{
    if ds.len() == 2 {
        let dl = ds.drop_last();
        let df = ds.drop_first();
        assert(dl =~= seq![ds[0]]);
        assert(df =~= seq![ds[1]]);
        assert(encode_disks_spec(dl) == encode_disk_spec(dl[0]));
        assert(dl[0] == ds[0]);
        assert(encode_disks_spec(df) == encode_disk_spec(df[0]));
        assert(df[0] == ds[1]);
        assert(ds.last() == ds[1]);
        assert(encode_disk_spec(ds[0]) + (","@ + encode_disks_spec(df)) =~= encode_disks_spec(
            ds,
        ));
    } else if ds.len() > 2 {
        let dl = ds.drop_last();
        let df = ds.drop_first();
        lemma_encode_disks_head(dl);
        assert(dl[0] == ds[0]);
        assert(dl.drop_first() =~= df.drop_last());
        assert(df.last() == ds.last());
        assert(encode_disks_spec(ds) == encode_disks_spec(dl) + ","@ + encode_disk_spec(ds.last()));
        assert(encode_disks_spec(dl) == encode_disk_spec(ds[0]) + (","@ + encode_disks_spec(
            df.drop_last(),
        )));
        assert(encode_disks_spec(df) == encode_disks_spec(df.drop_last()) + ","@ + encode_disk_spec(
            df.last(),
        ));
        assert(encode_disk_spec(ds[0]) + (","@ + encode_disks_spec(df)) =~= encode_disks_spec(
            ds,
        ));
    }
}

pub proof fn lemma_parse_disk_list_of_encoding(t: Seq<char>, pos: int, ds: Seq<Disk>)
    requires
        ds.len() >= 1,
        0 <= pos,
        pos + encode_disks_spec(ds).len() < t.len(),
        t.subrange(pos, pos + encode_disks_spec(ds).len()) == encode_disks_spec(ds),
        t[pos + encode_disks_spec(ds).len()] == ']',
    ensures
        parse_disk_list_spec(t, pos) == Some((ds, pos + encode_disks_spec(ds).len() + 1)),
    decreases ds.len(),
{
    reveal_strlit("{\"id\":\"");
    reveal_strlit(",");
    lemma_encode_disks_head(ds);
    let e0 = encode_disk_spec(ds[0]);
    let end = pos + encode_disks_spec(ds).len();
    assert(e0.len() >= 1);
    assert(e0[0] == '{');
    if ds.len() == 1 {
        assert(t.subrange(pos, end) == e0);
        lemma_parse_disk_of_encoding(t, pos, ds[0]);
        assert(t[end] == ']');
        assert(seq![ds[0]] =~= ds);
    } else {
        let rest = ds.drop_first();
        let r2 = ","@ + encode_disks_spec(rest);
        assert(t.subrange(pos, end) == e0 + r2);
        lemma_peel(t, pos, end, e0, r2);
        lemma_parse_disk_of_encoding(t, pos, ds[0]);
        let p = pos + e0.len();
        lemma_peel(t, p, end, ","@, encode_disks_spec(rest));
        assert(t.subrange(p, p + 1)[0] == t[p]);
        assert(t[p] == ',');
        lemma_parse_disk_list_of_encoding(t, p + 1, rest);
        assert(seq![ds[0]] + rest =~= ds);
    }
}

pub proof fn lemma_parse_disks_of_encoding(t: Seq<char>, pos: int, ds: Seq<Disk>)
    requires
        0 <= pos,
        pos + encode_disks_spec(ds).len() < t.len(),
        t.subrange(pos, pos + encode_disks_spec(ds).len()) == encode_disks_spec(ds),
        t[pos + encode_disks_spec(ds).len()] == ']',
    ensures
        parse_disks_spec(t, pos) == Some((ds, pos + encode_disks_spec(ds).len() + 1)),
{
    reveal_strlit("{\"id\":\"");
    if ds.len() == 0 {
        assert(encode_disks_spec(ds).len() == 0);
        assert(t[pos] == ']');
    } else {
        lemma_encode_disks_head(ds);
        let e0 = encode_disk_spec(ds[0]);
        assert(e0.len() >= 1);
        assert(e0[0] == '{');
        assert(t.subrange(pos, pos + encode_disks_spec(ds).len())[0] == t[pos]);
        assert(encode_disks_spec(ds)[0] == e0[0]) by {
            if ds.len() >= 2 {
                assert(encode_disks_spec(ds) == e0 + (","@ + encode_disks_spec(ds.drop_first())));
            }
        }
        assert(t[pos] == '{');
        lemma_parse_disk_list_of_encoding(t, pos, ds);
    }
}

/// Parsing a record that encoding produced gives back the encoded value:
/// the codec round trip.
pub proof fn lemma_parse_capacities_of_encoding(t: Seq<char>, pos: int, cpu: u32, ram: u32, storage: u32)
    requires
        0 <= pos,
        pos + encode_capacities_spec(cpu, ram, storage).len() < t.len(),
        t.subrange(pos, pos + encode_capacities_spec(cpu, ram, storage).len())
            == encode_capacities_spec(cpu, ram, storage),
        !crate::numerals::is_dec_digit(t[pos + encode_capacities_spec(cpu, ram, storage).len()]),
    ensures
        parse_capacities_spec(t, pos) == Some(
            ((cpu, ram, storage), pos + encode_capacities_spec(cpu, ram, storage).len()),
        ),
{
    reveal_strlit(",\"ram_gb\":");
    reveal_strlit(",\"storage_gb\":");
    let e5 = "\",\"cpu_cores\":"@;
    let e6 = dec_digits(cpu as nat);
    let e7 = ",\"ram_gb\":"@;
    let e8 = dec_digits(ram as nat);
    let e9 = ",\"storage_gb\":"@;
    let e10 = dec_digits(storage as nat);
    let r10 = e10;
    let r9 = e9 + r10;
    let r8 = e8 + r9;
    let r7 = e7 + r8;
    let r6 = e6 + r7;
    let r5 = e5 + r6;
    let end = pos + encode_capacities_spec(cpu, ram, storage).len();
    assert(encode_capacities_spec(cpu, ram, storage) == r5);
    assert(t.subrange(pos, end) == r5);
    lemma_peel(t, pos, end, e5, r6);
    let p5 = pos + e5.len();
    lemma_peel(t, p5, end, e6, r7);
    let p6 = p5 + e6.len();
    assert(end - p6 == r7.len());
    assert(t.subrange(p6, end)[0] == t[p6]);
    assert(t.subrange(p6, end)[0] == r7[0]);
    assert(t[p6] == ',');
    crate::numerals::lemma_parse_u32_of_encoding(t, p5, cpu);
    lemma_peel(t, p6, end, e7, r8);
    let p7 = p6 + e7.len();
    lemma_peel(t, p7, end, e8, r9);
    let p8 = p7 + e8.len();
    assert(end - p8 == r9.len());
    assert(t.subrange(p8, end)[0] == t[p8]);
    assert(t.subrange(p8, end)[0] == r9[0]);
    assert(t[p8] == ',');
    crate::numerals::lemma_parse_u32_of_encoding(t, p7, ram);
    lemma_peel(t, p8, end, e9, r10);
    let p9 = p8 + e9.len();
    lemma_peel(t, p9, end, e10, Seq::<char>::empty());
    crate::numerals::lemma_parse_u32_of_encoding(t, p9, storage);
}

pub proof fn lemma_parse_trailer_of_encoding(t: Seq<char>, pos: int, st: ServerStatus, ds: Seq<Disk>)
    requires
        0 <= pos,
        pos + encode_trailer_spec(st, ds).len() <= t.len(),
        t.subrange(pos, pos + encode_trailer_spec(st, ds).len()) == encode_trailer_spec(st, ds),
    ensures
        parse_trailer_spec(t, pos) == Some(((st, ds), pos + encode_trailer_spec(st, ds).len())),
{
    reveal_strlit("]}");
    reveal_strlit("}");
    let e11 = ",\"status\":\""@;
    let e12 = status_label(st);
    let e13 = "\",\"additional_disks\":["@;
    let e14 = encode_disks_spec(ds);
    let e15 = "]}"@;
    let r15 = e15;
    let r14 = e14 + r15;
    let r13 = e13 + r14;
    let r12 = e12 + r13;
    let r11 = e11 + r12;
    let end = pos + encode_trailer_spec(st, ds).len();
    assert(encode_trailer_spec(st, ds) == r11);
    assert(t.subrange(pos, end) == r11);
    lemma_peel(t, pos, end, e11, r12);
    let p11 = pos + e11.len();
    lemma_peel(t, p11, end, e12, r13);
    lemma_parse_status_of_encoding(t, p11, st);
    let p12 = p11 + e12.len();
    lemma_peel(t, p12, end, e13, r14);
    let p13 = p12 + e13.len();
    lemma_peel(t, p13, end, e14, r15);
    let p14 = p13 + e14.len();
    assert(end - p14 == r15.len());
    assert(t.subrange(p14, end)[0] == t[p14]);
    assert(t.subrange(p14, end)[0] == r15[0]);
    assert(t[p14] == ']');
    lemma_parse_disks_of_encoding(t, p13, ds);
    let p15 = p14 + 1;
    assert(t.subrange(p15, end) =~= "}"@) by {
        assert(t.subrange(p14, end).len() == 2);
        assert(t.subrange(p14, end)[1] == t[p14 + 1]);
        assert(t.subrange(p15, end).len() == 1);
        assert(t.subrange(p15, end)[0] == t[p15]);
    }
    assert(expect_spec(t, p15, "}"@) == Some(end));
}

/// Parsing a record that encoding produced gives back the encoded value:
/// the codec round trip.
pub proof fn lemma_record_round_trip(sv: ServerView)
    ensures
        parse_record_spec(encode_record_spec(sv)) == Some(sv),
{
    reveal_strlit("\",\"cpu_cores\":");
    reveal_strlit(",\"status\":\"");
    let t = encode_record_spec(sv);
    let e1 = "{\"id\":\""@;
    let e2 = hex_fixed(sv.id as nat, 32);
    let e3 = "\",\"name\":\""@;
    let e4 = escape_seq(sv.name);
    let e5 = encode_capacities_spec(sv.cpu_cores, sv.ram_gb, sv.storage_gb);
    let e6 = encode_trailer_spec(sv.status, sv.additional_disks);
    let r6 = e6;
    let r5 = e5 + r6;
    let r4 = e4 + r5;
    let r3 = e3 + r4;
    let r2 = e2 + r3;
    let r1 = e1 + r2;
    let end = t.len() as int;
    assert(t == r1);
    assert(t.subrange(0, end) =~= t);
    lemma_peel(t, 0, end, e1, r2);
    let p1 = e1.len() as int;
    lemma_peel(t, p1, end, e2, r3);
    crate::numerals::lemma_hex_fixed_shape(sv.id as nat, 32);
    crate::numerals::lemma_parse_hex32_of_encoding(t, p1, sv.id);
    let p2 = p1 + 32;
    lemma_peel(t, p2, end, e3, r4);
    let p3 = p2 + e3.len();
    lemma_peel(t, p3, end, e4, r5);
    let p4 = p3 + e4.len();
    assert(end - p4 == r5.len());
    assert(r5.len() == e5.len() + r6.len());
    assert(e5.len() >= 1) by {
        assert(e5 == "\",\"cpu_cores\":"@ + (dec_digits(sv.cpu_cores as nat) + (",\"ram_gb\":"@
            + (dec_digits(sv.ram_gb as nat) + (",\"storage_gb\":"@ + dec_digits(
            sv.storage_gb as nat,
        ))))));
        assert(e5.len() >= ("\",\"cpu_cores\":"@).len());
    }
    assert(t.subrange(p4, end)[0] == t[p4]);
    assert(t.subrange(p4, end)[0] == r5[0]);
    assert(r5[0] == e5[0]);
    assert(e5[0] == '"') by {
        assert(e5 == "\",\"cpu_cores\":"@ + (dec_digits(sv.cpu_cores as nat) + (",\"ram_gb\":"@
            + (dec_digits(sv.ram_gb as nat) + (",\"storage_gb\":"@ + dec_digits(
            sv.storage_gb as nat,
        ))))));
    }
    crate::escape::lemma_parse_body_of_encoding(t, p3, sv.name);
    lemma_peel(t, p4, end, e5, r6);
    let p5 = p4 + e5.len();
    assert(end - p5 == e6.len());
    assert(e6.len() >= 1) by {
        assert(e6 == ",\"status\":\""@ + (status_label(sv.status)
            + ("\",\"additional_disks\":["@ + (encode_disks_spec(sv.additional_disks)
            + "]}"@))));
        assert(e6.len() >= (",\"status\":\""@).len());
    }
    assert(t.subrange(p5, end)[0] == t[p5]);
    assert(t.subrange(p5, end)[0] == e6[0]);
    assert(e6[0] == ',') by {
        assert(e6 == ",\"status\":\""@ + (status_label(sv.status)
            + ("\",\"additional_disks\":["@ + (encode_disks_spec(sv.additional_disks)
            + "]}"@))));
    }
    assert(!crate::numerals::is_dec_digit(t[p5]));
    lemma_parse_capacities_of_encoding(t, p4, sv.cpu_cores, sv.ram_gb, sv.storage_gb);
    lemma_parse_trailer_of_encoding(t, p5, sv.status, sv.additional_disks);
    assert(parse_record_spec(t) == Some(
        ServerView {
            id: sv.id,
            name: sv.name,
            cpu_cores: sv.cpu_cores,
            ram_gb: sv.ram_gb,
            storage_gb: sv.storage_gb,
            status: sv.status,
            additional_disks: sv.additional_disks,
        },
    ));
    assert(ServerView {
        id: sv.id,
        name: sv.name,
        cpu_cores: sv.cpu_cores,
        ram_gb: sv.ram_gb,
        storage_gb: sv.storage_gb,
        status: sv.status,
        additional_disks: sv.additional_disks,
    } =~= sv);
}

proof fn lemma_glue(t: Seq<char>, a: int, b: int, c: int, x: Seq<char>, y: Seq<char>)
    requires
        0 <= a <= b <= c <= t.len(),
        t.subrange(a, b) == x,
        t.subrange(b, c) == y,
    ensures
        t.subrange(a, c) == x + y,
{
    assert(t.subrange(a, b).len() == b - a);
    assert(t.subrange(b, c).len() == c - b);
    assert forall|i: int| 0 <= i < c - a implies t.subrange(a, c)[i] == (x + y)[i] by {
        if i < b - a {
            assert(t.subrange(a, b)[i] == t[a + i]);
        } else {
            assert(t.subrange(b, c)[i - (b - a)] == t[b + (i - (b - a))]);
        }
    }
    assert(t.subrange(a, c) =~= x + y);
}

pub proof fn lemma_parse_status_sound(t: Seq<char>, pos: int)
    ensures
        match parse_status_spec(t, pos) {
            Some((st, p)) => 0 <= pos && p == pos + status_label(st).len() && p <= t.len()
                && t.subrange(pos, p) == status_label(st),
            None => true,
        },
{
}

pub proof fn lemma_parse_disk_sound(t: Seq<char>, pos: int)
    ensures
        match parse_disk_spec(t, pos) {
            Some((d, p)) => 0 <= pos && pos < p <= t.len() && t.subrange(pos, p)
                == encode_disk_spec(d),
            None => true,
        },
{
    if parse_disk_spec(t, pos) is Some {
        let p1 = expect_spec(t, pos, "{\"id\":\""@).unwrap();
        let (id, p2) = parse_hex32_spec(t, p1).unwrap();
        crate::numerals::lemma_parse_hex32_sound(t, p1, id, p2);
        let p3 = expect_spec(t, p2, "\",\"size_gb\":"@).unwrap();
        let (size, p4) = parse_u32_spec(t, p3).unwrap();
        crate::numerals::lemma_parse_u32_sound(t, p3, size, p4);
        let p5 = expect_spec(t, p4, "}"@).unwrap();
        lemma_glue(t, p3, p4, p5, dec_digits(size as nat), "}"@);
        lemma_glue(t, p2, p3, p5, "\",\"size_gb\":"@, dec_digits(size as nat) + "}"@);
        lemma_glue(
            t,
            p1,
            p2,
            p5,
            hex_fixed(id as nat, 32),
            "\",\"size_gb\":"@ + (dec_digits(size as nat) + "}"@),
        );
        lemma_glue(
            t,
            pos,
            p1,
            p5,
            "{\"id\":\""@,
            hex_fixed(id as nat, 32) + ("\",\"size_gb\":"@ + (dec_digits(size as nat) + "}"@)),
        );
        reveal_strlit("{\"id\":\"");
    }
}

pub proof fn lemma_parse_disk_list_sound(t: Seq<char>, pos: int)
    requires
        0 <= pos <= t.len(),
    ensures
        match parse_disk_list_spec(t, pos) {
            Some((ds, p)) => ds.len() >= 1 && pos < p <= t.len() && t.subrange(pos, p - 1)
                == encode_disks_spec(ds) && t[p - 1] == ']',
            None => true,
        },
    decreases t.len() - pos,
{
    if parse_disk_list_spec(t, pos) is Some {
        let (d, p) = parse_disk_spec(t, pos).unwrap();
        lemma_parse_disk_sound(t, pos);
        if p < t.len() && t[p] == ',' {
            let (ds2, q) = parse_disk_list_spec(t, p + 1).unwrap();
            lemma_parse_disk_list_sound(t, p + 1);
            reveal_strlit(",");
            assert(t.subrange(p, p + 1) =~= ","@);
            lemma_glue(t, p, p + 1, q - 1, ","@, encode_disks_spec(ds2));
            lemma_glue(t, pos, p, q - 1, encode_disk_spec(d), ","@ + encode_disks_spec(ds2));
            let ds = seq![d] + ds2;
            lemma_encode_disks_head(ds);
            assert(ds[0] == d);
            assert(ds.drop_first() =~= ds2);
            assert(encode_disk_spec(d) + (","@ + encode_disks_spec(ds2)) =~= encode_disk_spec(d)
                + ","@ + encode_disks_spec(ds2));
            assert(t.subrange(pos, q - 1) == encode_disks_spec(ds));
        } else {
            let ds = seq![d];
            assert(ds[0] == d);
            assert(encode_disks_spec(ds) == encode_disk_spec(d));
            assert(t[p] == ']');
        }
    }
}

pub proof fn lemma_parse_disks_sound(t: Seq<char>, pos: int)
    requires
        0 <= pos <= t.len(),
    ensures
        match parse_disks_spec(t, pos) {
            Some((ds, p)) => pos < p <= t.len() && t.subrange(pos, p - 1) == encode_disks_spec(ds)
                && t[p - 1] == ']',
            None => true,
        },
{
    if pos < t.len() && t[pos] == ']' {
        assert(t.subrange(pos, pos) =~= encode_disks_spec(Seq::<Disk>::empty()));
    } else {
        lemma_parse_disk_list_sound(t, pos);
    }
}

pub proof fn lemma_parse_capacities_sound(t: Seq<char>, pos: int)
    ensures
        match parse_capacities_spec(t, pos) {
            Some((v, p)) => 0 <= pos && pos < p <= t.len() && t.subrange(pos, p)
                == encode_capacities_spec(v.0, v.1, v.2),
            None => true,
        },
{
    if parse_capacities_spec(t, pos) is Some {
        let p1 = expect_spec(t, pos, "\",\"cpu_cores\":"@).unwrap();
        let (cpu, p2) = parse_u32_spec(t, p1).unwrap();
        crate::numerals::lemma_parse_u32_sound(t, p1, cpu, p2);
        let p3 = expect_spec(t, p2, ",\"ram_gb\":"@).unwrap();
        let (ram, p4) = parse_u32_spec(t, p3).unwrap();
        crate::numerals::lemma_parse_u32_sound(t, p3, ram, p4);
        let p5 = expect_spec(t, p4, ",\"storage_gb\":"@).unwrap();
        let (storage, p6) = parse_u32_spec(t, p5).unwrap();
        crate::numerals::lemma_parse_u32_sound(t, p5, storage, p6);
        lemma_glue(t, p4, p5, p6, ",\"storage_gb\":"@, dec_digits(storage as nat));
        lemma_glue(
            t,
            p3,
            p4,
            p6,
            dec_digits(ram as nat),
            ",\"storage_gb\":"@ + dec_digits(storage as nat),
        );
        lemma_glue(
            t,
            p2,
            p3,
            p6,
            ",\"ram_gb\":"@,
            dec_digits(ram as nat) + (",\"storage_gb\":"@ + dec_digits(storage as nat)),
        );
        lemma_glue(
            t,
            p1,
            p2,
            p6,
            dec_digits(cpu as nat),
            ",\"ram_gb\":"@ + (dec_digits(ram as nat) + (",\"storage_gb\":"@ + dec_digits(
                storage as nat,
            ))),
        );
        lemma_glue(
            t,
            pos,
            p1,
            p6,
            "\",\"cpu_cores\":"@,
            dec_digits(cpu as nat) + (",\"ram_gb\":"@ + (dec_digits(ram as nat)
                + (",\"storage_gb\":"@ + dec_digits(storage as nat)))),
        );
        reveal_strlit("\",\"cpu_cores\":");
    }
}

pub proof fn lemma_parse_trailer_sound(t: Seq<char>, pos: int)
    ensures
        match parse_trailer_spec(t, pos) {
            Some(((st, ds), p)) => 0 <= pos && pos < p <= t.len() && t.subrange(pos, p)
                == encode_trailer_spec(st, ds),
            None => true,
        },
{
    if parse_trailer_spec(t, pos) is Some {
        let p1 = expect_spec(t, pos, ",\"status\":\""@).unwrap();
        let (st, p2) = parse_status_spec(t, p1).unwrap();
        lemma_parse_status_sound(t, p1);
        let p3 = expect_spec(t, p2, "\",\"additional_disks\":["@).unwrap();
        let (ds, p4) = parse_disks_spec(t, p3).unwrap();
        lemma_parse_disks_sound(t, p3);
        let p5 = expect_spec(t, p4, "}"@).unwrap();
        reveal_strlit("]");
        reveal_strlit("}");
        reveal_strlit("]}");
        assert(t.subrange(p4 - 1, p4) =~= "]"@);
        lemma_glue(t, p4 - 1, p4, p5, "]"@, "}"@);
        assert("]"@ + "}"@ =~= "]}"@);
        lemma_glue(t, p3, p4 - 1, p5, encode_disks_spec(ds), "]}"@);
        lemma_glue(
            t,
            p2,
            p3,
            p5,
            "\",\"additional_disks\":["@,
            encode_disks_spec(ds) + "]}"@,
        );
        lemma_glue(
            t,
            p1,
            p2,
            p5,
            status_label(st),
            "\",\"additional_disks\":["@ + (encode_disks_spec(ds) + "]}"@),
        );
        lemma_glue(
            t,
            pos,
            p1,
            p5,
            ",\"status\":\""@,
            status_label(st) + ("\",\"additional_disks\":["@ + (encode_disks_spec(ds)
                + "]}"@)),
        );
        reveal_strlit(",\"status\":\"");
    }
}

/// Parsing accepts only encodings: a text the parser reads back as `sv`
/// is exactly the record text that encoding `sv` writes. Together with
/// the round trip this pins the parser down: it succeeds on the encodings
/// and on nothing else.
pub proof fn lemma_parse_record_sound(t: Seq<char>, sv: ServerView)
    requires
        parse_record_spec(t) == Some(sv),
    ensures
        t == encode_record_spec(sv),
{
    let p1 = expect_spec(t, 0, "{\"id\":\""@).unwrap();
    let (id, p2) = parse_hex32_spec(t, p1).unwrap();
    crate::numerals::lemma_parse_hex32_sound(t, p1, id, p2);
    let p3 = expect_spec(t, p2, "\",\"name\":\""@).unwrap();
    let (name, p4) = parse_body_spec(t, p3).unwrap();
    crate::escape::lemma_parse_body_sound(t, p3, name, p4);
    let (caps, p5) = parse_capacities_spec(t, p4).unwrap();
    lemma_parse_capacities_sound(t, p4);
    let (tail, p6) = parse_trailer_spec(t, p5).unwrap();
    lemma_parse_trailer_sound(t, p5);
    let capv = encode_capacities_spec(caps.0, caps.1, caps.2);
    let trv = encode_trailer_spec(tail.0, tail.1);
    lemma_glue(t, p4, p5, p6, capv, trv);
    lemma_glue(t, p3, p4, p6, escape_seq(name), capv + trv);
    lemma_glue(t, p2, p3, p6, "\",\"name\":\""@, escape_seq(name) + (capv + trv));
    lemma_glue(
        t,
        p1,
        p2,
        p6,
        hex_fixed(id as nat, 32),
        "\",\"name\":\""@ + (escape_seq(name) + (capv + trv)),
    );
    lemma_glue(
        t,
        0,
        p1,
        p6,
        "{\"id\":\""@,
        hex_fixed(id as nat, 32) + ("\",\"name\":\""@ + (escape_seq(name) + (capv + trv))),
    );
    assert(p6 == t.len());
    assert(t.subrange(0, t.len() as int) =~= t);
    assert(sv.id == id && sv.name == name && sv.cpu_cores == caps.0 && sv.ram_gb == caps.1
        && sv.storage_gb == caps.2 && sv.status == tail.0 && sv.additional_disks == tail.1);
    assert(t == encode_record_spec(sv));
}

/// Writes the record text for `server`.
pub fn encode_server_record(server: &Server) -> (r: String)
    ensures
        r@ == encode_record_spec(server@),
{
    let mut out = String::new();
    out.append("{\"id\":\"");
    let ghost c1 = out@;
    push_hex32(&mut out, server.id);
    let ghost c2 = out@;
    out.append("\",\"name\":\"");
    let ghost c3 = out@;
    let name_chars = str_chars(server.name.as_str());
    push_escaped(&mut out, &name_chars);
    let ghost c4 = out@;
    out.append("\",\"cpu_cores\":");
    let ghost c5 = out@;
    push_dec_u64(&mut out, server.cpu_cores as u64);
    let ghost c6 = out@;
    out.append(",\"ram_gb\":");
    let ghost c7 = out@;
    push_dec_u64(&mut out, server.ram_gb as u64);
    let ghost c8 = out@;
    out.append(",\"storage_gb\":");
    let ghost c9 = out@;
    push_dec_u64(&mut out, server.storage_gb as u64);
    let ghost c10 = out@;
    out.append(",\"status\":\"");
    let ghost c11 = out@;
    match server.status {
        ServerStatus::Provisioning => out.append("Provisioning"),
        ServerStatus::Running => out.append("Running"),
        ServerStatus::Stopped => out.append("Stopped"),
        ServerStatus::Terminated => out.append("Terminated"),
    }
    let ghost c12 = out@;
    proof {
        assert(c12 == c11 + status_label(server@.status));
    }
    out.append("\",\"additional_disks\":[");
    let ghost c13 = out@;
    let mut i: usize = 0;
    while i < server.additional_disks.len()
        invariant
            i <= server.additional_disks@.len(),
            out@ == c13 + encode_disks_spec(server.additional_disks@.subrange(0, i as int)),
        decreases server.additional_disks.len() - i,
    {
        let ghost done = server.additional_disks@.subrange(0, i as int);
        if i > 0 {
            out.append(",");
        }
        push_disk(&mut out, &server.additional_disks[i]);
        proof {
            let next = server.additional_disks@.subrange(0, i + 1);
            assert(next.drop_last() =~= done);
            assert(next.last() == server.additional_disks@[i as int]);
            if i == 0 {
                assert(next.len() == 1);
                assert(out@ =~= c13 + encode_disks_spec(next));
            } else {
                assert(encode_disks_spec(next) == encode_disks_spec(done) + ","@ + encode_disk_spec(
                    next.last(),
                ));
                assert(out@ =~= c13 + encode_disks_spec(next));
            }
        }
        i = i + 1;
    }
    proof {
        assert(server.additional_disks@.subrange(0, server.additional_disks@.len() as int)
            =~= server.additional_disks@);
    }
    let ghost c14 = out@;
    out.append("]}");
    proof {
        let sv = server@;
        let e1 = "{\"id\":\""@;
        let e2 = hex_fixed(sv.id as nat, 32);
        let e3 = "\",\"name\":\""@;
        let e4 = escape_seq(sv.name);
        let e5 = "\",\"cpu_cores\":"@;
        let e6 = dec_digits(sv.cpu_cores as nat);
        let e7 = ",\"ram_gb\":"@;
        let e8 = dec_digits(sv.ram_gb as nat);
        let e9 = ",\"storage_gb\":"@;
        let e10 = dec_digits(sv.storage_gb as nat);
        let e11 = ",\"status\":\""@;
        let e12 = status_label(sv.status);
        let e13 = "\",\"additional_disks\":["@;
        let e14 = encode_disks_spec(sv.additional_disks);
        let e15 = "]}"@;
        let r15 = e15;
        let r14 = e14 + r15;
        let r13 = e13 + r14;
        let r12 = e12 + r13;
        let r11 = e11 + r12;
        let r10 = e10 + r11;
        let r9 = e9 + r10;
        let r8 = e8 + r9;
        let r7 = e7 + r8;
        let r6 = e6 + r7;
        let r5 = e5 + r6;
        vstd::seq_lib::lemma_concat_associative(c13, e14, r15);
        assert(out@ == c13 + r14);
        vstd::seq_lib::lemma_concat_associative(c12, e13, r14);
        assert(out@ == c12 + r13);
        vstd::seq_lib::lemma_concat_associative(c11, e12, r13);
        assert(out@ == c11 + r12);
        vstd::seq_lib::lemma_concat_associative(c10, e11, r12);
        assert(out@ == c10 + r11);
        vstd::seq_lib::lemma_concat_associative(c9, e10, r11);
        assert(out@ == c9 + r10);
        vstd::seq_lib::lemma_concat_associative(c8, e9, r10);
        assert(out@ == c8 + r9);
        vstd::seq_lib::lemma_concat_associative(c7, e8, r9);
        assert(out@ == c7 + r8);
        vstd::seq_lib::lemma_concat_associative(c6, e7, r8);
        assert(out@ == c6 + r7);
        vstd::seq_lib::lemma_concat_associative(c5, e6, r7);
        assert(out@ == c5 + r6);
        vstd::seq_lib::lemma_concat_associative(c4, e5, r6);
        assert(out@ == c4 + r5);
        let capv = encode_capacities_spec(sv.cpu_cores, sv.ram_gb, sv.storage_gb);
        let trv = encode_trailer_spec(sv.status, sv.additional_disks);
        assert(trv == r11);
        vstd::seq_lib::lemma_concat_associative(e9, e10, r11);
        vstd::seq_lib::lemma_concat_associative(e8, e9 + e10, r11);
        vstd::seq_lib::lemma_concat_associative(e7, e8 + (e9 + e10), r11);
        vstd::seq_lib::lemma_concat_associative(e6, e7 + (e8 + (e9 + e10)), r11);
        vstd::seq_lib::lemma_concat_associative(e5, e6 + (e7 + (e8 + (e9 + e10))), r11);
        assert(capv + trv == r5);
        assert(out@ == c4 + (capv + trv));
        vstd::seq_lib::lemma_concat_associative(c3, e4, capv + trv);
        assert(out@ == c3 + (e4 + (capv + trv)));
        vstd::seq_lib::lemma_concat_associative(c2, e3, e4 + (capv + trv));
        assert(out@ == c2 + (e3 + (e4 + (capv + trv))));
        vstd::seq_lib::lemma_concat_associative(c1, e2, e3 + (e4 + (capv + trv)));
        assert(out@ == c1 + (e2 + (e3 + (e4 + (capv + trv)))));
        assert(c1 =~= e1);
        assert(out@ == encode_record_spec(sv));
    }
    out
}

fn push_disk(out: &mut String, d: &Disk)
    ensures
        final(out)@ == old(out)@ + encode_disk_spec(*d),
{
    out.append("{\"id\":\"");
    push_hex32(out, d.id);
    out.append("\",\"size_gb\":");
    push_dec_u64(out, d.size_gb as u64);
    out.append("}");
    proof {
        assert(final(out)@ =~= old(out)@ + encode_disk_spec(*d));
    }
}

/// The file name a server record is stored under: the identifier's 32
/// hexadecimal digits followed by `.json`.
pub fn record_file_name(id: u128) -> (r: String)
    ensures
        r@ == hex_fixed(id as nat, 32) + ".json"@,
{
    let mut out = String::new();
    push_hex32(&mut out, id);
    out.append(".json");
    proof {
        assert(out@ =~= hex_fixed(id as nat, 32) + ".json"@);
    }
    out
}

/// Matches `lit` at `pos`, as [`expect_spec`] says.
fn expect_str(t: &Vec<char>, pos: usize, lit: &str) -> (r: Option<usize>)
    requires
        pos <= t.len(),
    ensures
        match r {
            Some(p) => expect_spec(t@, pos as int, lit@) == Some(p as int) && pos <= p <= t.len(),
            None => expect_spec(t@, pos as int, lit@) is None,
        },
{
    let n = lit.unicode_len();
    if t.len() - pos < n {
        return None;
    }
    let mut i: usize = 0;
    while i < n
        invariant
            i <= n,
            n == lit@.len(),
            pos + n <= t.len(),
            forall|j: int| 0 <= j < i ==> t@[pos + j] == lit@[j],
        decreases n - i,
    {
        if t[pos + i] != lit.get_char(i) {
            proof {
                if t@.subrange(pos as int, pos as int + n as int) == lit@ {
                    assert(t@.subrange(pos as int, pos as int + n as int)[i as int]
                        == lit@[i as int]);
                    assert(false);
                }
            }
            return None;
        }
        i = i + 1;
    }
    proof {
        assert(t@.subrange(pos as int, pos as int + n as int) =~= lit@);
    }
    Some(pos + n)
}

/// Matches one of the four status labels, as [`parse_status_spec`] says.
fn parse_status_chars(t: &Vec<char>, pos: usize) -> (r: Option<(ServerStatus, usize)>)
    requires
        pos <= t.len(),
    ensures
        match r {
            Some((st, p)) => parse_status_spec(t@, pos as int) == Some((st, p as int)) && pos <= p
                <= t.len(),
            None => parse_status_spec(t@, pos as int) is None,
        },
{
    if let Some(p) = expect_str(t, pos, "Provisioning") {
        return Some((ServerStatus::Provisioning, p));
    }
    if let Some(p) = expect_str(t, pos, "Running") {
        return Some((ServerStatus::Running, p));
    }
    if let Some(p) = expect_str(t, pos, "Stopped") {
        return Some((ServerStatus::Stopped, p));
    }
    if let Some(p) = expect_str(t, pos, "Terminated") {
        return Some((ServerStatus::Terminated, p));
    }
    None
}

/// Parses one disk object, as [`parse_disk_spec`] says.
fn parse_disk_chars(t: &Vec<char>, pos: usize) -> (r: Option<(Disk, usize)>)
    requires
        pos <= t.len(),
    ensures
        match r {
            Some((d, p)) => parse_disk_spec(t@, pos as int) == Some((d, p as int)) && pos < p
                <= t.len(),
            None => parse_disk_spec(t@, pos as int) is None,
        },
{
    let p1 = match expect_str(t, pos, "{\"id\":\"") {
        Some(p) => p,
        None => {
            return None;
        },
    };
    let (id, p2) = match parse_hex32_chars(t, p1) {
        Some(x) => x,
        None => {
            return None;
        },
    };
    let p3 = match expect_str(t, p2, "\",\"size_gb\":") {
        Some(p) => p,
        None => {
            return None;
        },
    };
    let (size, p4) = match parse_u32_chars(t, p3) {
        Some(x) => x,
        None => {
            return None;
        },
    };
    let p5 = match expect_str(t, p4, "}") {
        Some(p) => p,
        None => {
            return None;
        },
    };
    proof {
        reveal_strlit("{\"id\":\"");
    }
    Some((Disk { id, size_gb: size }, p5))
}

/// Does disk-list parsing continue from `cur` with `acc` already read.
pub open spec fn disks_continue(t: Seq<char>, pos: int, acc: Seq<Disk>, cur: int) -> bool {
    parse_disk_list_spec(t, pos) == match parse_disk_list_spec(t, cur) {
        Some((ds, p)) => Some((acc + ds, p)),
        None => None::<(Seq<Disk>, int)>,
    }
}

/// Parses the disk array items and the closing bracket, as
/// [`parse_disks_spec`] says.
fn parse_disks_chars(t: &Vec<char>, pos: usize) -> (r: Option<(Vec<Disk>, usize)>)
    requires
        pos <= t.len(),
    ensures
        match r {
            Some((v, p)) => parse_disks_spec(t@, pos as int) == Some((v@, p as int)) && p
                <= t.len(),
            None => parse_disks_spec(t@, pos as int) is None,
        },
{
    if pos < t.len() && t[pos] == ']' {
        let out: Vec<Disk> = Vec::new();
        proof {
            assert(out@ =~= Seq::<Disk>::empty());
        }
        return Some((out, pos + 1));
    }
    let mut out: Vec<Disk> = Vec::new();
    let mut cur: usize = pos;
    proof {
        assert(out@ =~= Seq::<Disk>::empty());
        if parse_disk_list_spec(t@, pos as int) is Some {
            let (ds, p) = parse_disk_list_spec(t@, pos as int).unwrap();
            assert(out@ + ds =~= ds);
        }
    }
    loop
        invariant
            pos <= cur <= t.len(),
            disks_continue(t@, pos as int, out@, cur as int),
            parse_disks_spec(t@, pos as int) == parse_disk_list_spec(t@, pos as int),
        decreases t.len() - cur,
    {
        match parse_disk_chars(t, cur) {
            None => {
                return None;
            },
            Some((d, p)) => {
                if p < t.len() && t[p] == ',' {
                    proof {
                        if parse_disk_list_spec(t@, p as int + 1) is Some {
                            let (ds2, q) = parse_disk_list_spec(t@, p as int + 1).unwrap();
                            assert(out@ + (seq![d] + ds2) =~= out@.push(d) + ds2);
                        }
                    }
                    out.push(d);
                    cur = p + 1;
                } else if p < t.len() && t[p] == ']' {
                    proof {
                        assert(out@ + seq![d] =~= out@.push(d));
                    }
                    out.push(d);
                    return Some((out, p + 1));
                } else {
                    return None;
                }
            },
        }
    }
}

/// Parses the capacity figures, as [`parse_capacities_spec`] says.
fn parse_capacities_chars(t: &Vec<char>, pos: usize) -> (r: Option<((u32, u32, u32), usize)>)
    requires
        pos <= t.len(),
    ensures
        match r {
            Some((v, p)) => parse_capacities_spec(t@, pos as int) == Some((v, p as int)) && p
                <= t.len(),
            None => parse_capacities_spec(t@, pos as int) is None,
        },
{
    let p1 = match expect_str(t, pos, "\",\"cpu_cores\":") {
        Some(p) => p,
        None => {
            return None;
        },
    };
    let (cpu, p2) = match parse_u32_chars(t, p1) {
        Some(x) => x,
        None => {
            return None;
        },
    };
    let p3 = match expect_str(t, p2, ",\"ram_gb\":") {
        Some(p) => p,
        None => {
            return None;
        },
    };
    let (ram, p4) = match parse_u32_chars(t, p3) {
        Some(x) => x,
        None => {
            return None;
        },
    };
    let p5 = match expect_str(t, p4, ",\"storage_gb\":") {
        Some(p) => p,
        None => {
            return None;
        },
    };
    let (storage, p6) = match parse_u32_chars(t, p5) {
        Some(x) => x,
        None => {
            return None;
        },
    };
    Some(((cpu, ram, storage), p6))
}

/// Parses the status and disk array, as [`parse_trailer_spec`] says.
fn parse_trailer_chars(t: &Vec<char>, pos: usize) -> (r: Option<
    ((ServerStatus, Vec<Disk>), usize),
>)
    requires
        pos <= t.len(),
    ensures
        match r {
            Some(((st, ds), p)) => parse_trailer_spec(t@, pos as int) == Some(
                ((st, ds@), p as int),
            ) && p <= t.len(),
            None => parse_trailer_spec(t@, pos as int) is None,
        },
{
    let p1 = match expect_str(t, pos, ",\"status\":\"") {
        Some(p) => p,
        None => {
            return None;
        },
    };
    let (st, p2) = match parse_status_chars(t, p1) {
        Some(x) => x,
        None => {
            return None;
        },
    };
    let p3 = match expect_str(t, p2, "\",\"additional_disks\":[") {
        Some(p) => p,
        None => {
            return None;
        },
    };
    let (ds, p4) = match parse_disks_chars(t, p3) {
        Some(x) => x,
        None => {
            return None;
        },
    };
    let p5 = match expect_str(t, p4, "}") {
        Some(p) => p,
        None => {
            return None;
        },
    };
    Some(((st, ds), p5))
}

/// Parses a record text back into a server. Every record that
/// [`encode_server_record`] writes is read back to an equal server, and
/// any other text is `None`.
pub fn parse_server_record(text: &str) -> (r: Option<Server>)
    ensures
        match r {
            Some(server) => parse_record_spec(text@) == Some(server@),
            None => parse_record_spec(text@) is None,
        },
{
    let t = str_chars(text);
    let p1 = match expect_str(&t, 0, "{\"id\":\"") {
        Some(p) => p,
        None => {
            return None;
        },
    };
    let (id, p2) = match parse_hex32_chars(&t, p1) {
        Some(x) => x,
        None => {
            return None;
        },
    };
    let p3 = match expect_str(&t, p2, "\",\"name\":\"") {
        Some(p) => p,
        None => {
            return None;
        },
    };
    let (name_chars, p4) = match parse_body_chars(&t, p3) {
        Some(x) => x,
        None => {
            return None;
        },
    };
    let (caps, p5) = match parse_capacities_chars(&t, p4) {
        Some(x) => x,
        None => {
            return None;
        },
    };
    let (tail, p6) = match parse_trailer_chars(&t, p5) {
        Some(x) => x,
        None => {
            return None;
        },
    };
    if p6 != t.len() {
        return None;
    }
    let name = string_from_chars(&name_chars);
    let server = Server {
        id,
        name,
        cpu_cores: caps.0,
        ram_gb: caps.1,
        storage_gb: caps.2,
        status: tail.0,
        additional_disks: tail.1,
    };
    proof {
        assert(parse_record_spec(text@).unwrap() =~= server@);
    }
    Some(server)
}

/// Parses every record text in order, failing if any one of them is not a
/// record: a read of the whole store is fail-fast, and one corrupt record
/// fails it rather than being skipped.
pub fn decode_records(texts: &Vec<String>) -> (r: Option<Vec<Server>>)
    ensures
        match r {
            Some(servers) => servers@.len() == texts@.len() && (forall|i: int|
                0 <= i < texts@.len() ==> parse_record_spec(texts@[i]@) == Some(
                    #[trigger] servers@[i]@,
                )),
            None => exists|i: int|
                0 <= i < texts@.len() && parse_record_spec(#[trigger] texts@[i]@) is None,
        },
{
    let mut servers: Vec<Server> = Vec::new();
    let mut i: usize = 0;
    while i < texts.len()
        invariant
            i <= texts@.len(),
            servers@.len() == i,
            forall|j: int|
                0 <= j < i ==> parse_record_spec(texts@[j]@) == Some(#[trigger] servers@[j]@),
        decreases texts.len() - i,
    {
        match parse_server_record(texts[i].as_str()) {
            Some(s) => servers.push(s),
            None => {
                return None;
            },
        }
        i = i + 1;
    }
    Some(servers)
}

} // verus!
