//! A byte-level codec for the configuration store, used by the
//! persistence layer: every save is a full re-serialization of the
//! store, and loading parses the whole record back.
//!
//! The wire format writes every field as a 64-bit little-endian word:
//! the global settings, then each guild record (sorted by guild id)
//! with its grants (sorted by entity id). Decoding accepts exactly the
//! encodings of well-formed stores: any other input is rejected.

use vstd::prelude::*;
use vstd::bytes::{
    lemma_auto_spec_u64_to_from_le_bytes, spec_u64_from_le_bytes, spec_u64_to_le_bytes,
    u64_from_le_bytes, u64_to_le_bytes,
};
use vstd::slice::slice_subrange;

use crate::config::{ActivityKind, BotModes, ConfigModel, ConfigStruct, GuildModel, ServerAudioStruct};
use crate::permission::BotPermission;

verus! {

/// The input was not the encoding of a well-formed store.
#[derive(Debug, Clone, Copy, PartialEq, Eq, Structural)]
pub struct ParseError;

/// Wire tag of an operating mode.
pub open spec fn mode_tag(m: BotModes) -> u64 {
    match m {
        BotModes::Latex => 0,
        BotModes::Music => 1,
        BotModes::Soundboard => 2,
        BotModes::All => 3,
    }
}

/// The operating mode a wire tag stands for, if any.
pub open spec fn spec_mode_of_tag(t: u64) -> Option<BotModes> {
    if t == 0 {
        Some(BotModes::Latex)
    } else if t == 1 {
        Some(BotModes::Music)
    } else if t == 2 {
        Some(BotModes::Soundboard)
    } else if t == 3 {
        Some(BotModes::All)
    } else {
        None
    }
}

/// Wire tag of a display status.
pub open spec fn activity_tag(a: ActivityKind) -> u64 {
    match a {
        ActivityKind::Playing => 0,
        ActivityKind::Streaming => 1,
        ActivityKind::Listening => 2,
        ActivityKind::Watching => 3,
        ActivityKind::Competing => 4,
    }
}

/// The display status a wire tag stands for, if any.
pub open spec fn spec_activity_of_tag(t: u64) -> Option<ActivityKind> {
    if t == 0 {
        Some(ActivityKind::Playing)
    } else if t == 1 {
        Some(ActivityKind::Streaming)
    } else if t == 2 {
        Some(ActivityKind::Listening)
    } else if t == 3 {
        Some(ActivityKind::Watching)
    } else if t == 4 {
        Some(ActivityKind::Competing)
    } else {
        None
    }
}

/// Wire tag of a permission level. Only positive grants are ever
/// written, so tag 0 is never produced by an encoder.
pub open spec fn perm_tag(p: BotPermission) -> u64 {
    match p {
        BotPermission::Owner => 4,
        BotPermission::Admin => 3,
        BotPermission::Moderator => 2,
        BotPermission::User => 1,
        BotPermission::NoPerm => 0,
    }
}

/// The positive permission level a wire tag stands for, if any: a
/// revoked grant is never stored, so tag 0 is invalid.
pub open spec fn spec_perm_of_tag(t: u64) -> Option<BotPermission> {
    if t == 1 {
        Some(BotPermission::User)
    } else if t == 2 {
        Some(BotPermission::Moderator)
    } else if t == 3 {
        Some(BotPermission::Admin)
    } else if t == 4 {
        Some(BotPermission::Owner)
    } else {
        None
    }
}

/// Wire word of a boolean.
pub open spec fn bool_word(b: bool) -> u64 {
    if b {
        1
    } else {
        0
    }
}

/// The boolean a wire word stands for, if any.
pub open spec fn spec_bool_of_word(t: u64) -> Option<bool> {
    if t == 0 {
        Some(false)
    } else if t == 1 {
        Some(true)
    } else {
        None
    }
}

/// The character a wire word stands for: the unicode scalar value with
/// that code, if the code is one.
pub open spec fn spec_char_of_code(v: u64) -> Option<char> {
    if v < 0xD800 || (0xE000 <= v && v <= 0x10FFFF) {
        Some(v as char)
    } else {
        None
    }
}

/// Encoding of one grant entry.
pub open spec fn spec_enc_grant(e: (u64, BotPermission)) -> Seq<u8> {
    spec_u64_to_le_bytes(e.0) + spec_u64_to_le_bytes(perm_tag(e.1))
}

/// Encoding of a grant list, in order.
pub open spec fn spec_enc_grants(s: Seq<(u64, BotPermission)>) -> Seq<u8>
    decreases s.len(),
{
    if s.len() == 0 {
        Seq::empty()
    } else {
        spec_enc_grant(s[0]) + spec_enc_grants(s.drop_first())
    }
}

/// Encoding of one guild record: its id, settings, grant count and
/// grants.
pub open spec fn spec_enc_guild(e: (u64, GuildModel)) -> Seq<u8> {
    spec_u64_to_le_bytes(e.0) + spec_u64_to_le_bytes(e.1.volume as u64) + spec_u64_to_le_bytes(
        bool_word(e.1.auto_playlist),
    ) + spec_u64_to_le_bytes(bool_word(e.1.user_default)) + spec_u64_to_le_bytes(
        e.1.grants.len() as u64,
    ) + spec_enc_grants(e.1.grants)
}

/// Encoding of a guild list, in order.
pub open spec fn spec_enc_guilds(s: Seq<(u64, GuildModel)>) -> Seq<u8>
    decreases s.len(),
{
    if s.len() == 0 {
        Seq::empty()
    } else {
        spec_enc_guild(s[0]) + spec_enc_guilds(s.drop_first())
    }
}

/// Encoding of the whole store: the global settings, the guild count,
/// then every guild record.
pub open spec fn spec_enc_config(m: ConfigModel) -> Seq<u8> {
    spec_u64_to_le_bytes(m.owner_id) + spec_u64_to_le_bytes(m.prefix as u64) + spec_u64_to_le_bytes(
        bool_word(m.auto_reconnect),
    ) + spec_u64_to_le_bytes(mode_tag(m.bot_mode)) + spec_u64_to_le_bytes(
        activity_tag(m.activity),
    ) + spec_u64_to_le_bytes(m.guilds.len() as u64) + spec_enc_guilds(m.guilds)
}

/// The counts the wire format stores in one word each actually fit it.
pub open spec fn spec_counts_bounded(m: ConfigModel) -> bool {
    &&& m.guilds.len() <= u64::MAX
    &&& forall|i: int|
        0 <= i < m.guilds.len() ==> (#[trigger] m.guilds[i]).1.grants.len() <= u64::MAX
}

/// Reads one 64-bit little-endian word at position `i`.
pub open spec fn p_u64(s: Seq<u8>, i: int) -> Option<(u64, int)> {
    if 0 <= i && i + 8 <= s.len() {
        Some((spec_u64_from_le_bytes(s.subrange(i, i + 8)), i + 8))
    } else {
        None
    }
}

/// Parses `n` grant entries from position `i`, requiring entity ids in
/// strictly ascending order above `lo` and valid positive level tags.
pub open spec fn p_grants(s: Seq<u8>, i: int, n: nat, lo: int) -> Option<
    (Seq<(u64, BotPermission)>, int),
>
    decreases n,
{
    if n == 0 {
        Some((Seq::empty(), i))
    } else {
        match p_u64(s, i) {
            None => None,
            Some((id, i1)) => {
                if id as int <= lo {
                    None
                } else {
                    match p_u64(s, i1) {
                        None => None,
                        Some((tag, i2)) => match spec_perm_of_tag(tag) {
                            None => None,
                            Some(p) => match p_grants(s, i2, (n - 1) as nat, id as int) {
                                None => None,
                                Some((rest, j)) => Some((seq![(id, p)] + rest, j)),
                            },
                        },
                    }
                }
            },
        }
    }
}

/// Parses one guild record from position `i`, requiring the volume in
/// its allowed range and valid flag words.
pub open spec fn p_guild(s: Seq<u8>, i: int) -> Option<((u64, GuildModel), int)> {
    match p_u64(s, i) {
        None => None,
        Some((id, i1)) => match p_u64(s, i1) {
            None => None,
            Some((vol, i2)) => {
                if !(10 <= vol && vol <= 100) {
                    None
                } else {
                    match p_u64(s, i2) {
                        None => None,
                        Some((apw, i3)) => match spec_bool_of_word(apw) {
                            None => None,
                            Some(ap) => match p_u64(s, i3) {
                                None => None,
                                Some((udw, i4)) => match spec_bool_of_word(udw) {
                                    None => None,
                                    Some(ud) => match p_u64(s, i4) {
                                        None => None,
                                        Some((cnt, i5)) => match p_grants(
                                            s,
                                            i5,
                                            cnt as nat,
                                            -1,
                                        ) {
                                            None => None,
                                            Some((grants, j)) => Some(
                                                (
                                                    (
                                                        id,
                                                        GuildModel {
                                                            volume: vol as u8,
                                                            auto_playlist: ap,
                                                            user_default: ud,
                                                            grants: grants,
                                                        },
                                                    ),
                                                    j,
                                                ),
                                            ),
                                        },
                                    },
                                },
                            },
                        },
                    }
                }
            },
        },
    }
}

/// Parses `n` guild records from position `i`, requiring guild ids in
/// strictly ascending order above `lo`.
pub open spec fn p_guilds(s: Seq<u8>, i: int, n: nat, lo: int) -> Option<
    (Seq<(u64, GuildModel)>, int),
>
    decreases n,
{
    if n == 0 {
        Some((Seq::empty(), i))
    } else {
        match p_guild(s, i) {
            None => None,
            Some((e, i1)) => {
                if e.0 as int <= lo {
                    None
                } else {
                    match p_guilds(s, i1, (n - 1) as nat, e.0 as int) {
                        None => None,
                        Some((rest, j)) => Some((seq![e] + rest, j)),
                    }
                }
            },
        }
    }
}

/// Parses a whole store record: the global settings, the guild count,
/// every guild record, and nothing after them. This is exactly the set
/// of byte strings that `spec_enc_config` produces from well-formed,
/// count-bounded models.
pub open spec fn spec_parse_config(s: Seq<u8>) -> Option<ConfigModel> {
    match p_u64(s, 0) {
        None => None,
        Some((owner, i1)) => match p_u64(s, i1) {
            None => None,
            Some((pfx, i2)) => match spec_char_of_code(pfx) {
                None => None,
                Some(prefix) => match p_u64(s, i2) {
                    None => None,
                    Some((arw, i3)) => match spec_bool_of_word(arw) {
                        None => None,
                        Some(auto_reconnect) => match p_u64(s, i3) {
                            None => None,
                            Some((mw, i4)) => match spec_mode_of_tag(mw) {
                                None => None,
                                Some(bot_mode) => match p_u64(s, i4) {
                                    None => None,
                                    Some((aw, i5)) => match spec_activity_of_tag(aw) {
                                        None => None,
                                        Some(activity) => match p_u64(s, i5) {
                                            None => None,
                                            Some((cnt, i6)) => match p_guilds(
                                                s,
                                                i6,
                                                cnt as nat,
                                                -1,
                                            ) {
                                                None => None,
                                                Some((guilds, j)) => {
                                                    if j == s.len() {
                                                        Some(
                                                            ConfigModel {
                                                                owner_id: owner,
                                                                prefix: prefix,
                                                                auto_reconnect: auto_reconnect,
                                                                bot_mode: bot_mode,
                                                                activity: activity,
                                                                guilds: guilds,
                                                            },
                                                        )
                                                    } else {
                                                        None
                                                    }
                                                },
                                            },
                                        },
                                    },
                                },
                            },
                        },
                    },
                },
            },
        },
    }
}

/// A word encoded at the end of a known prefix parses back to itself.
proof fn lemma_p_u64_of_enc(pre: Seq<u8>, x: u64, suf: Seq<u8>)
    ensures
        p_u64(pre + spec_u64_to_le_bytes(x) + suf, pre.len() as int) == Some(
            (x, pre.len() as int + 8),
        ),
{
    lemma_auto_spec_u64_to_from_le_bytes();
    let s = pre + spec_u64_to_le_bytes(x) + suf;
    assert(spec_u64_to_le_bytes(x).len() == 8);
    assert(s.subrange(pre.len() as int, pre.len() as int + 8) =~= spec_u64_to_le_bytes(x));
}

/// An encoded grant list parses back to itself.
proof fn lemma_rt_grants(pre: Seq<u8>, g: Seq<(u64, BotPermission)>, suf: Seq<u8>, lo: int)
    requires
        crate::table::keys_strictly_sorted(g),
        forall|idx: int| 0 <= idx < g.len() ==> (#[trigger] g[idx]).0 as int > lo,
        forall|idx: int| 0 <= idx < g.len() ==> (#[trigger] g[idx]).1 != BotPermission::NoPerm,
    ensures
        p_grants(pre + spec_enc_grants(g) + suf, pre.len() as int, g.len() as nat, lo) == Some(
            (g, pre.len() as int + spec_enc_grants(g).len()),
        ),
    decreases g.len(),
{
    lemma_auto_spec_u64_to_from_le_bytes();
    let s = pre + spec_enc_grants(g) + suf;
    if g.len() == 0 {
        assert(spec_enc_grants(g) == Seq::<u8>::empty());
        assert(g =~= Seq::<(u64, BotPermission)>::empty());
    } else {
        let e = g[0];
        let w0 = spec_u64_to_le_bytes(e.0);
        let w1 = spec_u64_to_le_bytes(perm_tag(e.1));
        let rest = g.drop_first();
        assert(spec_enc_grants(g) == spec_enc_grant(e) + spec_enc_grants(rest));
        assert(s =~= pre + w0 + (w1 + spec_enc_grants(rest) + suf));
        lemma_p_u64_of_enc(pre, e.0, w1 + spec_enc_grants(rest) + suf);
        assert(s =~= (pre + w0) + w1 + (spec_enc_grants(rest) + suf));
        lemma_p_u64_of_enc(pre + w0, perm_tag(e.1), spec_enc_grants(rest) + suf);
        assert((pre + w0).len() == pre.len() + 8);
        assert(spec_perm_of_tag(perm_tag(e.1)) == Some(e.1));
        assert(e.0 as int > lo);
        let pre2 = pre + w0 + w1;
        assert(s =~= pre2 + spec_enc_grants(rest) + suf);
        assert(crate::table::keys_strictly_sorted(rest));
        assert forall|idx: int| 0 <= idx < rest.len()
            implies (#[trigger] rest[idx]).0 as int > e.0 as int by {
            assert(rest[idx] == g[idx + 1]);
            assert(g[0].0 < g[idx + 1].0);
        }
        assert(forall|idx: int|
            0 <= idx < rest.len() ==> (#[trigger] rest[idx]).1 != BotPermission::NoPerm);
        lemma_rt_grants(pre2, rest, suf, e.0 as int);
        assert(seq![e] + rest =~= g);
        assert(pre2.len() == pre.len() + 16);
        assert(spec_enc_grants(g).len() == 16 + spec_enc_grants(rest).len());
    }
}

/// An encoded guild record parses back to itself.
#[verifier::rlimit(100)]
proof fn lemma_rt_guild(pre: Seq<u8>, e: (u64, GuildModel), suf: Seq<u8>)
    requires
        e.1.wf(),
        e.1.grants.len() <= u64::MAX,
    ensures
        p_guild(pre + spec_enc_guild(e) + suf, pre.len() as int) == Some(
            (e, pre.len() as int + spec_enc_guild(e).len()),
        ),
{
    lemma_auto_spec_u64_to_from_le_bytes();
    let s = pre + spec_enc_guild(e) + suf;
    let gm = e.1;
    let w0 = spec_u64_to_le_bytes(e.0);
    let w1 = spec_u64_to_le_bytes(gm.volume as u64);
    let w2 = spec_u64_to_le_bytes(bool_word(gm.auto_playlist));
    let w3 = spec_u64_to_le_bytes(bool_word(gm.user_default));
    let w4 = spec_u64_to_le_bytes(gm.grants.len() as u64);
    let enc_g = spec_enc_grants(gm.grants);
    assert(spec_enc_guild(e) == w0 + w1 + w2 + w3 + w4 + enc_g);
    assert(s =~= pre + w0 + (w1 + w2 + w3 + w4 + enc_g + suf));
    lemma_p_u64_of_enc(pre, e.0, w1 + w2 + w3 + w4 + enc_g + suf);
    assert(s =~= (pre + w0) + w1 + (w2 + w3 + w4 + enc_g + suf));
    lemma_p_u64_of_enc(pre + w0, gm.volume as u64, w2 + w3 + w4 + enc_g + suf);
    assert(s =~= (pre + w0 + w1) + w2 + (w3 + w4 + enc_g + suf));
    lemma_p_u64_of_enc(pre + w0 + w1, bool_word(gm.auto_playlist), w3 + w4 + enc_g + suf);
    assert(s =~= (pre + w0 + w1 + w2) + w3 + (w4 + enc_g + suf));
    lemma_p_u64_of_enc(pre + w0 + w1 + w2, bool_word(gm.user_default), w4 + enc_g + suf);
    assert(s =~= (pre + w0 + w1 + w2 + w3) + w4 + (enc_g + suf));
    lemma_p_u64_of_enc(pre + w0 + w1 + w2 + w3, gm.grants.len() as u64, enc_g + suf);
    let pre5 = pre + w0 + w1 + w2 + w3 + w4;
    assert(s =~= pre5 + enc_g + suf);
    assert(10 <= gm.volume as u64 <= 100);
    assert(spec_bool_of_word(bool_word(gm.auto_playlist)) == Some(gm.auto_playlist));
    assert(spec_bool_of_word(bool_word(gm.user_default)) == Some(gm.user_default));
    assert((gm.grants.len() as u64) as nat == gm.grants.len());
    assert forall|idx: int| 0 <= idx < gm.grants.len()
        implies (#[trigger] gm.grants[idx]).0 as int > -1 by {
    }
    lemma_rt_grants(pre5, gm.grants, suf, -1);
    assert(pre5.len() == pre.len() + 40);
    assert(spec_enc_guild(e).len() == 40 + enc_g.len());
    let parsed = GuildModel {
        volume: (gm.volume as u64) as u8,
        auto_playlist: gm.auto_playlist,
        user_default: gm.user_default,
        grants: gm.grants,
    };
    assert(parsed =~= gm);
}

/// An encoded guild list parses back to itself.
proof fn lemma_rt_guilds(pre: Seq<u8>, gs: Seq<(u64, GuildModel)>, suf: Seq<u8>, lo: int)
    requires
        crate::table::keys_strictly_sorted(gs),
        forall|idx: int| 0 <= idx < gs.len() ==> (#[trigger] gs[idx]).0 as int > lo,
        forall|idx: int| 0 <= idx < gs.len() ==> (#[trigger] gs[idx]).1.wf(),
        forall|idx: int| 0 <= idx < gs.len() ==> (#[trigger] gs[idx]).1.grants.len() <= u64::MAX,
    ensures
        p_guilds(pre + spec_enc_guilds(gs) + suf, pre.len() as int, gs.len() as nat, lo) == Some(
            (gs, pre.len() as int + spec_enc_guilds(gs).len()),
        ),
    decreases gs.len(),
{
    lemma_auto_spec_u64_to_from_le_bytes();
    let s = pre + spec_enc_guilds(gs) + suf;
    if gs.len() == 0 {
        assert(spec_enc_guilds(gs) == Seq::<u8>::empty());
        assert(gs =~= Seq::<(u64, GuildModel)>::empty());
    } else {
        let e = gs[0];
        let rest = gs.drop_first();
        assert(spec_enc_guilds(gs) == spec_enc_guild(e) + spec_enc_guilds(rest));
        assert(s =~= pre + spec_enc_guild(e) + (spec_enc_guilds(rest) + suf));
        lemma_rt_guild(pre, e, spec_enc_guilds(rest) + suf);
        assert(e.0 as int > lo);
        let pre2 = pre + spec_enc_guild(e);
        assert(s =~= pre2 + spec_enc_guilds(rest) + suf);
        assert(crate::table::keys_strictly_sorted(rest));
        assert forall|idx: int| 0 <= idx < rest.len()
            implies (#[trigger] rest[idx]).0 as int > e.0 as int by {
            assert(rest[idx] == gs[idx + 1]);
            assert(gs[0].0 < gs[idx + 1].0);
        }
        assert forall|idx: int| 0 <= idx < rest.len() implies (#[trigger] rest[idx]).1.wf() by {
            assert(rest[idx] == gs[idx + 1]);
        }
        assert forall|idx: int| 0 <= idx < rest.len()
            implies (#[trigger] rest[idx]).1.grants.len() <= u64::MAX by {
            assert(rest[idx] == gs[idx + 1]);
        }
        lemma_rt_guilds(pre2, rest, suf, e.0 as int);
        assert(seq![e] + rest =~= gs);
        assert(pre2.len() == pre.len() + spec_enc_guild(e).len());
        assert(spec_enc_guilds(gs).len() == spec_enc_guild(e).len() + spec_enc_guilds(rest).len());
    }
}

/// Round trip: parsing the encoding of any well-formed store yields
/// that store back — serialization loses nothing.
#[verifier::rlimit(100)]
pub proof fn lemma_encode_parse_round_trip(m: ConfigModel)
    requires
        m.wf(),
        spec_counts_bounded(m),
    ensures
        spec_parse_config(spec_enc_config(m)) == Some(m),
{
    lemma_auto_spec_u64_to_from_le_bytes();
    let s = spec_enc_config(m);
    let w0 = spec_u64_to_le_bytes(m.owner_id);
    let w1 = spec_u64_to_le_bytes(m.prefix as u64);
    let w2 = spec_u64_to_le_bytes(bool_word(m.auto_reconnect));
    let w3 = spec_u64_to_le_bytes(mode_tag(m.bot_mode));
    let w4 = spec_u64_to_le_bytes(activity_tag(m.activity));
    let w5 = spec_u64_to_le_bytes(m.guilds.len() as u64);
    let enc_g = spec_enc_guilds(m.guilds);
    let emp = Seq::<u8>::empty();
    assert(s == w0 + w1 + w2 + w3 + w4 + w5 + enc_g);
    assert(s =~= emp + w0 + (w1 + w2 + w3 + w4 + w5 + enc_g));
    lemma_p_u64_of_enc(emp, m.owner_id, w1 + w2 + w3 + w4 + w5 + enc_g);
    assert(emp.len() == 0);
    assert(s =~= (emp + w0) + w1 + (w2 + w3 + w4 + w5 + enc_g));
    lemma_p_u64_of_enc(emp + w0, m.prefix as u64, w2 + w3 + w4 + w5 + enc_g);
    assert(s =~= (emp + w0 + w1) + w2 + (w3 + w4 + w5 + enc_g));
    lemma_p_u64_of_enc(emp + w0 + w1, bool_word(m.auto_reconnect), w3 + w4 + w5 + enc_g);
    assert(s =~= (emp + w0 + w1 + w2) + w3 + (w4 + w5 + enc_g));
    lemma_p_u64_of_enc(emp + w0 + w1 + w2, mode_tag(m.bot_mode), w4 + w5 + enc_g);
    assert(s =~= (emp + w0 + w1 + w2 + w3) + w4 + (w5 + enc_g));
    lemma_p_u64_of_enc(emp + w0 + w1 + w2 + w3, activity_tag(m.activity), w5 + enc_g);
    assert(s =~= (emp + w0 + w1 + w2 + w3 + w4) + w5 + enc_g);
    lemma_p_u64_of_enc(emp + w0 + w1 + w2 + w3 + w4, m.guilds.len() as u64, enc_g);
    let pre6 = emp + w0 + w1 + w2 + w3 + w4 + w5;
    assert(s =~= pre6 + enc_g + emp);
    assert(spec_char_of_code(m.prefix as u64) == Some(m.prefix));
    assert(spec_bool_of_word(bool_word(m.auto_reconnect)) == Some(m.auto_reconnect));
    assert(spec_mode_of_tag(mode_tag(m.bot_mode)) == Some(m.bot_mode));
    assert(spec_activity_of_tag(activity_tag(m.activity)) == Some(m.activity));
    assert((m.guilds.len() as u64) as nat == m.guilds.len());
    assert forall|idx: int| 0 <= idx < m.guilds.len()
        implies (#[trigger] m.guilds[idx]).0 as int > -1 by {
    }
    lemma_rt_guilds(pre6, m.guilds, emp, -1);
    assert(pre6.len() == 48);
    assert(s.len() == 48 + enc_g.len());
    let parsed = ConfigModel {
        owner_id: m.owner_id,
        prefix: m.prefix,
        auto_reconnect: m.auto_reconnect,
        bot_mode: m.bot_mode,
        activity: m.activity,
        guilds: m.guilds,
    };
    assert(parsed =~= m);
}

/// Whatever a grant list parse accepts is sorted, above the bound, and
/// free of revoked entries.
proof fn lemma_p_grants_wf(s: Seq<u8>, i: int, n: nat, lo: int)
    ensures
        match p_grants(s, i, n, lo) {
            Some((g, j)) => {
                &&& g.len() == n
                &&& crate::table::keys_strictly_sorted(g)
                &&& forall|idx: int| 0 <= idx < g.len() ==> (#[trigger] g[idx]).0 as int > lo
                &&& forall|idx: int|
                    0 <= idx < g.len() ==> (#[trigger] g[idx]).1 != BotPermission::NoPerm
            },
            None => true,
        },
    decreases n,
{
    if n > 0 {
        match p_u64(s, i) {
            None => {},
            Some((id, i1)) => {
                if id as int > lo {
                    match p_u64(s, i1) {
                        None => {},
                        Some((tag, i2)) => match spec_perm_of_tag(tag) {
                            None => {},
                            Some(p) => {
                                lemma_p_grants_wf(s, i2, (n - 1) as nat, id as int);
                                match p_grants(s, i2, (n - 1) as nat, id as int) {
                                    None => {},
                                    Some((rest, _j)) => {
                                        let g = seq![(id, p)] + rest;
                                        assert(g[0] == (id, p));
                                        assert forall|a: int, b: int| 0 <= a < b < g.len()
                                            implies g[a].0 < g[b].0 by {
                                            if a == 0 {
                                                assert(g[b] == rest[b - 1]);
                                                assert(rest[b - 1].0 as int > id as int);
                                            } else {
                                                assert(g[a] == rest[a - 1]);
                                                assert(g[b] == rest[b - 1]);
                                            }
                                        }
                                        assert forall|idx: int| 0 <= idx < g.len()
                                            implies (#[trigger] g[idx]).0 as int > lo by {
                                            if idx > 0 {
                                                assert(g[idx] == rest[idx - 1]);
                                                assert(rest[idx - 1].0 as int > id as int);
                                            }
                                        }
                                        assert forall|idx: int| 0 <= idx < g.len()
                                            implies (#[trigger] g[idx]).1
                                            != BotPermission::NoPerm by {
                                            if idx > 0 {
                                                assert(g[idx] == rest[idx - 1]);
                                            }
                                        }
                                    },
                                }
                            },
                        },
                    }
                }
            },
        }
    }
}

/// Whatever a guild record parse accepts is a well-formed guild model
/// whose grant count fits one word.
proof fn lemma_p_guild_wf(s: Seq<u8>, i: int)
    ensures
        match p_guild(s, i) {
            Some((e, j)) => e.1.wf() && e.1.grants.len() <= u64::MAX,
            None => true,
        },
{
    match p_u64(s, i) {
        None => {},
        Some((id, i1)) => match p_u64(s, i1) {
            None => {},
            Some((vol, i2)) => {
                if 10 <= vol && vol <= 100 {
                    match p_u64(s, i2) {
                        None => {},
                        Some((apw, i3)) => match p_u64(s, i3) {
                            None => {},
                            Some((udw, i4)) => match p_u64(s, i4) {
                                None => {},
                                Some((cnt, i5)) => {
                                    lemma_p_grants_wf(s, i5, cnt as nat, -1);
                                },
                            },
                        },
                    }
                }
            },
        },
    }
}

/// Whatever a guild list parse accepts is sorted, above the bound, and
/// made of well-formed guild models with bounded grant counts.
proof fn lemma_p_guilds_wf(s: Seq<u8>, i: int, n: nat, lo: int)
    ensures
        match p_guilds(s, i, n, lo) {
            Some((gs, j)) => {
                &&& gs.len() == n
                &&& crate::table::keys_strictly_sorted(gs)
                &&& forall|idx: int| 0 <= idx < gs.len() ==> (#[trigger] gs[idx]).0 as int > lo
                &&& forall|idx: int| 0 <= idx < gs.len() ==> (#[trigger] gs[idx]).1.wf()
                &&& forall|idx: int|
                    0 <= idx < gs.len() ==> (#[trigger] gs[idx]).1.grants.len() <= u64::MAX
            },
            None => true,
        },
    decreases n,
{
    if n > 0 {
        lemma_p_guild_wf(s, i);
        match p_guild(s, i) {
            None => {},
            Some((e, i1)) => {
                if e.0 as int > lo {
                    lemma_p_guilds_wf(s, i1, (n - 1) as nat, e.0 as int);
                    match p_guilds(s, i1, (n - 1) as nat, e.0 as int) {
                        None => {},
                        Some((rest, _j)) => {
                            let gs = seq![e] + rest;
                            assert(gs[0] == e);
                            assert forall|a: int, b: int| 0 <= a < b < gs.len()
                                implies gs[a].0 < gs[b].0 by {
                                if a == 0 {
                                    assert(gs[b] == rest[b - 1]);
                                    assert(rest[b - 1].0 as int > e.0 as int);
                                } else {
                                    assert(gs[a] == rest[a - 1]);
                                    assert(gs[b] == rest[b - 1]);
                                }
                            }
                            assert forall|idx: int| 0 <= idx < gs.len()
                                implies (#[trigger] gs[idx]).0 as int > lo by {
                                if idx > 0 {
                                    assert(gs[idx] == rest[idx - 1]);
                                    assert(rest[idx - 1].0 as int > e.0 as int);
                                }
                            }
                            assert forall|idx: int| 0 <= idx < gs.len()
                                implies (#[trigger] gs[idx]).1.wf() by {
                                if idx > 0 {
                                    assert(gs[idx] == rest[idx - 1]);
                                }
                            }
                            assert forall|idx: int| 0 <= idx < gs.len()
                                implies (#[trigger] gs[idx]).1.grants.len() <= u64::MAX by {
                                if idx > 0 {
                                    assert(gs[idx] == rest[idx - 1]);
                                }
                            }
                        },
                    }
                }
            },
        }
    }
}

/// Whatever the store parse accepts is a well-formed, count-bounded
/// model.
pub proof fn lemma_parse_config_wf(s: Seq<u8>)
    ensures
        match spec_parse_config(s) {
            Some(m) => m.wf() && spec_counts_bounded(m),
            None => true,
        },
{
    match p_u64(s, 0) {
        None => {},
        Some((owner, i1)) => match p_u64(s, i1) {
            None => {},
            Some((pfx, i2)) => match p_u64(s, i2) {
                None => {},
                Some((arw, i3)) => match p_u64(s, i3) {
                    None => {},
                    Some((mw, i4)) => match p_u64(s, i4) {
                        None => {},
                        Some((aw, i5)) => match p_u64(s, i5) {
                            None => {},
                            Some((cnt, i6)) => {
                                lemma_p_guilds_wf(s, i6, cnt as nat, -1);
                            },
                        },
                    },
                },
            },
        },
    }
}


/// Whatever a grant list parse accepts occupies exactly the bytes its
/// encoding would produce.
proof fn lemma_p_grants_enc(s: Seq<u8>, i: int, n: nat, lo: int)
    requires
        0 <= i <= s.len(),
    ensures
        match p_grants(s, i, n, lo) {
            Some((g, j)) => i <= j <= s.len() && spec_enc_grants(g) == s.subrange(i, j),
            None => true,
        },
    decreases n,
{
    lemma_auto_spec_u64_to_from_le_bytes();
    if n == 0 {
        assert(spec_enc_grants(Seq::<(u64, BotPermission)>::empty()) =~= s.subrange(i, i));
    } else {
        match p_u64(s, i) {
            None => {},
            Some((id, i1)) => {
                if id as int > lo {
                    match p_u64(s, i1) {
                        None => {},
                        Some((tag, i2)) => match spec_perm_of_tag(tag) {
                            None => {},
                            Some(p) => {
                                lemma_p_grants_enc(s, i2, (n - 1) as nat, id as int);
                                match p_grants(s, i2, (n - 1) as nat, id as int) {
                                    None => {},
                                    Some((rest, j)) => {
                                        let g = seq![(id, p)] + rest;
                                        assert(spec_u64_to_le_bytes(id) == s.subrange(i, i + 8));
                                        assert(spec_u64_to_le_bytes(tag) == s.subrange(
                                            i1,
                                            i1 + 8,
                                        ));
                                        assert(perm_tag(p) == tag);
                                        assert(g[0] == (id, p));
                                        assert(g.drop_first() =~= rest);
                                        assert(spec_enc_grants(g) == spec_enc_grant((id, p))
                                            + spec_enc_grants(rest));
                                        assert(spec_enc_grants(g) =~= s.subrange(i, i + 8)
                                            + s.subrange(i + 8, i + 16) + s.subrange(i + 16, j));
                                        assert(s.subrange(i, i + 8) + s.subrange(i + 8, i + 16)
                                            + s.subrange(i + 16, j) =~= s.subrange(i, j));
                                    },
                                }
                            },
                        },
                    }
                }
            },
        }
    }
}

/// Whatever a guild record parse accepts occupies exactly the bytes
/// its encoding would produce.
#[verifier::rlimit(100)]
proof fn lemma_p_guild_enc(s: Seq<u8>, i: int)
    requires
        0 <= i <= s.len(),
    ensures
        match p_guild(s, i) {
            Some((e, j)) => i <= j <= s.len() && spec_enc_guild(e) == s.subrange(i, j),
            None => true,
        },
{
    lemma_auto_spec_u64_to_from_le_bytes();
    match p_u64(s, i) {
        None => {},
        Some((id, i1)) => match p_u64(s, i1) {
            None => {},
            Some((vol, i2)) => {
                if 10 <= vol && vol <= 100 {
                    match p_u64(s, i2) {
                        None => {},
                        Some((apw, i3)) => match spec_bool_of_word(apw) {
                            None => {},
                            Some(ap) => match p_u64(s, i3) {
                                None => {},
                                Some((udw, i4)) => match spec_bool_of_word(udw) {
                                    None => {},
                                    Some(ud) => match p_u64(s, i4) {
                                        None => {},
                                        Some((cnt, i5)) => {
                                            lemma_p_grants_enc(s, i5, cnt as nat, -1);
                                            lemma_p_grants_wf(s, i5, cnt as nat, -1);
                                            match p_grants(s, i5, cnt as nat, -1) {
                                                None => {},
                                                Some((grants, j)) => {
                                                    let gm = GuildModel {
                                                        volume: vol as u8,
                                                        auto_playlist: ap,
                                                        user_default: ud,
                                                        grants: grants,
                                                    };
                                                    assert((gm.volume as u64) == vol);
                                                    assert(bool_word(ap) == apw);
                                                    assert(bool_word(ud) == udw);
                                                    assert(grants.len() == cnt as nat);
                                                    assert((gm.grants.len() as u64) == cnt);
                                                    assert(spec_u64_to_le_bytes(id) == s.subrange(
                                                        i,
                                                        i + 8,
                                                    ));
                                                    assert(spec_u64_to_le_bytes(vol) == s.subrange(
                                                        i1,
                                                        i1 + 8,
                                                    ));
                                                    assert(spec_u64_to_le_bytes(apw) == s.subrange(
                                                        i2,
                                                        i2 + 8,
                                                    ));
                                                    assert(spec_u64_to_le_bytes(udw) == s.subrange(
                                                        i3,
                                                        i3 + 8,
                                                    ));
                                                    assert(spec_u64_to_le_bytes(cnt) == s.subrange(
                                                        i4,
                                                        i4 + 8,
                                                    ));
                                                    assert(spec_enc_guild((id, gm)) =~= s.subrange(
                                                        i,
                                                        i + 8,
                                                    ) + s.subrange(i1, i1 + 8) + s.subrange(
                                                        i2,
                                                        i2 + 8,
                                                    ) + s.subrange(i3, i3 + 8) + s.subrange(
                                                        i4,
                                                        i4 + 8,
                                                    ) + s.subrange(i5, j));
                                                    assert(s.subrange(i, i + 8) + s.subrange(
                                                        i1,
                                                        i1 + 8,
                                                    ) + s.subrange(i2, i2 + 8) + s.subrange(
                                                        i3,
                                                        i3 + 8,
                                                    ) + s.subrange(i4, i4 + 8) + s.subrange(
                                                        i5,
                                                        j,
                                                    ) =~= s.subrange(i, j));
                                                },
                                            }
                                        },
                                    },
                                },
                            },
                        },
                    }
                }
            },
        },
    }
}

/// Whatever a guild list parse accepts occupies exactly the bytes its
/// encoding would produce.
proof fn lemma_p_guilds_enc(s: Seq<u8>, i: int, n: nat, lo: int)
    requires
        0 <= i <= s.len(),
    ensures
        match p_guilds(s, i, n, lo) {
            Some((gs, j)) => i <= j <= s.len() && spec_enc_guilds(gs) == s.subrange(i, j),
            None => true,
        },
    decreases n,
{
    if n == 0 {
        assert(spec_enc_guilds(Seq::<(u64, GuildModel)>::empty()) =~= s.subrange(i, i));
    } else {
        lemma_p_guild_enc(s, i);
        match p_guild(s, i) {
            None => {},
            Some((e, i1)) => {
                if e.0 as int > lo {
                    lemma_p_guilds_enc(s, i1, (n - 1) as nat, e.0 as int);
                    match p_guilds(s, i1, (n - 1) as nat, e.0 as int) {
                        None => {},
                        Some((rest, j)) => {
                            let gs = seq![e] + rest;
                            assert(gs[0] == e);
                            assert(gs.drop_first() =~= rest);
                            assert(spec_enc_guilds(gs) == spec_enc_guild(e)
                                + spec_enc_guilds(rest));
                            assert(spec_enc_guilds(gs) =~= s.subrange(i, i1) + s.subrange(i1, j));
                            assert(s.subrange(i, i1) + s.subrange(i1, j) =~= s.subrange(i, j));
                        },
                    }
                }
            },
        }
    }
}

/// The format is unambiguous: whatever the store parse accepts is the
/// one store whose encoding is exactly the input. Together with the
/// round trip this makes encoding a bijection between well-formed,
/// count-bounded stores and the byte strings the decoder accepts.
#[verifier::rlimit(100)]
pub proof fn lemma_parse_encode_inverse(s: Seq<u8>)
    ensures
        match spec_parse_config(s) {
            Some(m) => spec_enc_config(m) == s,
            None => true,
        },
{
    lemma_auto_spec_u64_to_from_le_bytes();
    match p_u64(s, 0) {
        None => {},
        Some((owner, i1)) => match p_u64(s, i1) {
            None => {},
            Some((pfx, i2)) => match spec_char_of_code(pfx) {
                None => {},
                Some(prefix) => match p_u64(s, i2) {
                    None => {},
                    Some((arw, i3)) => match spec_bool_of_word(arw) {
                        None => {},
                        Some(auto_reconnect) => match p_u64(s, i3) {
                            None => {},
                            Some((mw, i4)) => match spec_mode_of_tag(mw) {
                                None => {},
                                Some(bot_mode) => match p_u64(s, i4) {
                                    None => {},
                                    Some((aw, i5)) => match spec_activity_of_tag(aw) {
                                        None => {},
                                        Some(activity) => match p_u64(s, i5) {
                                            None => {},
                                            Some((cnt, i6)) => {
                                                lemma_p_guilds_enc(s, i6, cnt as nat, -1);
                                                lemma_p_guilds_wf(s, i6, cnt as nat, -1);
                                                match p_guilds(s, i6, cnt as nat, -1) {
                                                    None => {},
                                                    Some((guilds, j)) => {
                                                        if j == s.len() {
                                                            let m = ConfigModel {
                                                                owner_id: owner,
                                                                prefix: prefix,
                                                                auto_reconnect: auto_reconnect,
                                                                bot_mode: bot_mode,
                                                                activity: activity,
                                                                guilds: guilds,
                                                            };
                                                            assert((m.prefix as u64) == pfx);
                                                            assert(bool_word(auto_reconnect)
                                                                == arw);
                                                            assert(mode_tag(bot_mode) == mw);
                                                            assert(activity_tag(activity) == aw);
                                                            assert((m.guilds.len() as u64)
                                                                == cnt);
                                                            assert(spec_u64_to_le_bytes(owner)
                                                                == s.subrange(0, 8));
                                                            assert(spec_u64_to_le_bytes(pfx)
                                                                == s.subrange(i1, i1 + 8));
                                                            assert(spec_u64_to_le_bytes(arw)
                                                                == s.subrange(i2, i2 + 8));
                                                            assert(spec_u64_to_le_bytes(mw)
                                                                == s.subrange(i3, i3 + 8));
                                                            assert(spec_u64_to_le_bytes(aw)
                                                                == s.subrange(i4, i4 + 8));
                                                            assert(spec_u64_to_le_bytes(cnt)
                                                                == s.subrange(i5, i5 + 8));
                                                            assert(spec_enc_config(m)
                                                                =~= s.subrange(0, 8) + s.subrange(
                                                                i1,
                                                                i1 + 8,
                                                            ) + s.subrange(i2, i2 + 8)
                                                                + s.subrange(i3, i3 + 8)
                                                                + s.subrange(i4, i4 + 8)
                                                                + s.subrange(i5, i5 + 8)
                                                                + s.subrange(i6, j));
                                                            assert(s.subrange(0, 8) + s.subrange(
                                                                i1,
                                                                i1 + 8,
                                                            ) + s.subrange(i2, i2 + 8)
                                                                + s.subrange(i3, i3 + 8)
                                                                + s.subrange(i4, i4 + 8)
                                                                + s.subrange(i5, i5 + 8)
                                                                + s.subrange(i6, j) =~= s.subrange(
                                                                0,
                                                                j,
                                                            ));
                                                            assert(s.subrange(0, j) =~= s);
                                                        }
                                                    },
                                                }
                                            },
                                        },
                                    },
                                },
                            },
                        },
                    },
                },
            },
        },
    }
}

/// Appends the little-endian bytes of `x`.
fn push_u64(out: &mut Vec<u8>, x: u64)
    ensures
        final(out)@ == old(out)@ + spec_u64_to_le_bytes(x),
{
    let mut w = u64_to_le_bytes(x);
    out.append(&mut w);
}

/// Wire tag of an operating mode.
fn mode_to_tag(m: BotModes) -> (t: u64)
    ensures
        t == mode_tag(m),
{
    match m {
        BotModes::Latex => 0,
        BotModes::Music => 1,
        BotModes::Soundboard => 2,
        BotModes::All => 3,
    }
}

/// Wire tag of a display status.
fn activity_to_tag(a: ActivityKind) -> (t: u64)
    ensures
        t == activity_tag(a),
{
    match a {
        ActivityKind::Playing => 0,
        ActivityKind::Streaming => 1,
        ActivityKind::Listening => 2,
        ActivityKind::Watching => 3,
        ActivityKind::Competing => 4,
    }
}

/// Wire tag of a permission level.
fn perm_to_tag(p: BotPermission) -> (t: u64)
    ensures
        t == perm_tag(p),
{
    match p {
        BotPermission::Owner => 4,
        BotPermission::Admin => 3,
        BotPermission::Moderator => 2,
        BotPermission::User => 1,
        BotPermission::NoPerm => 0,
    }
}

/// Appending one entry extends a grant list's encoding at its end.
proof fn lemma_enc_grants_snoc(s: Seq<(u64, BotPermission)>, e: (u64, BotPermission))
    ensures
        spec_enc_grants(s.push(e)) == spec_enc_grants(s) + spec_enc_grant(e),
    decreases s.len(),
{
    if s.len() == 0 {
        let t = s.push(e);
        assert(t[0] == e);
        assert(t.drop_first() =~= Seq::<(u64, BotPermission)>::empty());
        assert(spec_enc_grants(t.drop_first()) == Seq::<u8>::empty());
        assert(spec_enc_grants(t) == spec_enc_grant(e) + spec_enc_grants(t.drop_first()));
        assert(spec_enc_grant(e) + Seq::<u8>::empty() =~= Seq::<u8>::empty() + spec_enc_grant(e));
        assert(spec_enc_grants(s) == Seq::<u8>::empty());
    } else {
        assert(s.push(e)[0] == s[0]);
        assert(s.push(e).drop_first() =~= s.drop_first().push(e));
        lemma_enc_grants_snoc(s.drop_first(), e);
        assert(spec_enc_grant(s[0]) + (spec_enc_grants(s.drop_first()) + spec_enc_grant(e)) =~= (
        spec_enc_grant(s[0]) + spec_enc_grants(s.drop_first())) + spec_enc_grant(e));
    }
}

/// Appending one record extends a guild list's encoding at its end.
proof fn lemma_enc_guilds_snoc(s: Seq<(u64, GuildModel)>, e: (u64, GuildModel))
    ensures
        spec_enc_guilds(s.push(e)) == spec_enc_guilds(s) + spec_enc_guild(e),
    decreases s.len(),
{
    if s.len() == 0 {
        let t = s.push(e);
        assert(t[0] == e);
        assert(t.drop_first() =~= Seq::<(u64, GuildModel)>::empty());
        assert(spec_enc_guilds(t.drop_first()) == Seq::<u8>::empty());
        assert(spec_enc_guilds(t) == spec_enc_guild(e) + spec_enc_guilds(t.drop_first()));
        assert(spec_enc_guild(e) + Seq::<u8>::empty() =~= Seq::<u8>::empty() + spec_enc_guild(e));
        assert(spec_enc_guilds(s) == Seq::<u8>::empty());
    } else {
        assert(s.push(e)[0] == s[0]);
        assert(s.push(e).drop_first() =~= s.drop_first().push(e));
        lemma_enc_guilds_snoc(s.drop_first(), e);
        assert(spec_enc_guild(s[0]) + (spec_enc_guilds(s.drop_first()) + spec_enc_guild(e)) =~= (
        spec_enc_guild(s[0]) + spec_enc_guilds(s.drop_first())) + spec_enc_guild(e));
    }
}

/// Appends the encoding of one guild record.
fn encode_guild(out: &mut Vec<u8>, id: u64, server: &ServerAudioStruct)
    ensures
        final(out)@ == old(out)@ + spec_enc_guild((id, server@)),
{
    push_u64(out, id);
    push_u64(out, server.volume as u64);
    push_u64(out, if server.auto_playlist { 1 } else { 0 });
    push_u64(out, if server.user_default { 1 } else { 0 });
    push_u64(out, server.entity_permission.len() as u64);
    let ghost head = out@;
    let n = server.entity_permission.len();
    let mut k: usize = 0;
    proof {
        assert(server.entity_permission@.take(0) =~= Seq::<(u64, BotPermission)>::empty());
        assert(out@ =~= head + spec_enc_grants(server.entity_permission@.take(0)));
    }
    while k < n
        invariant
            k <= n,
            n == server.entity_permission@.len(),
            out@ == head + spec_enc_grants(server.entity_permission@.take(k as int)),
        decreases n - k,
    {
        let entry = server.entity_permission[k];
        push_u64(out, entry.0);
        push_u64(out, perm_to_tag(entry.1));
        proof {
            let taken = server.entity_permission@.take(k as int);
            lemma_enc_grants_snoc(taken, entry);
            assert(taken.push(entry) =~= server.entity_permission@.take(k as int + 1));
            assert((head + spec_enc_grants(taken)) + (spec_u64_to_le_bytes(entry.0)
                + spec_u64_to_le_bytes(perm_tag(entry.1))) =~= head + (spec_enc_grants(taken)
                + spec_enc_grant(entry)));
            assert(out@ == ((head + spec_enc_grants(taken)) + spec_u64_to_le_bytes(entry.0))
                + spec_u64_to_le_bytes(perm_tag(entry.1)));
            assert(((head + spec_enc_grants(taken)) + spec_u64_to_le_bytes(entry.0))
                + spec_u64_to_le_bytes(perm_tag(entry.1)) =~= (head + spec_enc_grants(taken)) + (
            spec_u64_to_le_bytes(entry.0) + spec_u64_to_le_bytes(perm_tag(entry.1))));
        }
        k = k + 1;
    }
    proof {
        assert(server.entity_permission@.take(n as int) =~= server.entity_permission@);
        assert(head + spec_enc_grants(server.entity_permission@) =~= old(out)@ + spec_enc_guild(
            (id, server@),
        ));
    }
}

/// Serializes the whole store. Every mutation of the store is followed
/// by a full rewrite of this encoding to durable storage. Counts held
/// in vectors always fit the format's words, so a well-formed store
/// always decodes back to itself (`lemma_encode_parse_round_trip`).
pub fn encode_config(cfg: &ConfigStruct) -> (out: Vec<u8>)
    ensures
        out@ == spec_enc_config(cfg@),
        spec_counts_bounded(cfg@),
{
    proof {
        vstd::std_specs::vec::axiom_spec_len(&cfg.server_cfgs);
        assert forall|i: int| 0 <= i < cfg@.guilds.len()
            implies (#[trigger] cfg@.guilds[i]).1.grants.len() <= u64::MAX by {
            vstd::std_specs::vec::axiom_spec_len(&cfg.server_cfgs@[i].1.entity_permission);
        }
    }
    let mut out: Vec<u8> = Vec::new();
    push_u64(&mut out, cfg.owner_id);
    push_u64(&mut out, (cfg.prefix as u32) as u64);
    push_u64(&mut out, if cfg.auto_reconnect { 1 } else { 0 });
    push_u64(&mut out, mode_to_tag(cfg.bot_mode));
    push_u64(&mut out, activity_to_tag(cfg.activity));
    push_u64(&mut out, cfg.server_cfgs.len() as u64);
    let ghost head = out@;
    let n = cfg.server_cfgs.len();
    let mut k: usize = 0;
    proof {
        assert(cfg@.guilds.take(0) =~= Seq::<(u64, GuildModel)>::empty());
        assert(out@ =~= head + spec_enc_guilds(cfg@.guilds.take(0)));
    }
    while k < n
        invariant
            k <= n,
            n == cfg.server_cfgs@.len(),
            cfg@.guilds.len() == n,
            out@ == head + spec_enc_guilds(cfg@.guilds.take(k as int)),
        decreases n - k,
    {
        let id = cfg.server_cfgs[k].0;
        encode_guild(&mut out, id, &cfg.server_cfgs[k].1);
        proof {
            let taken = cfg@.guilds.take(k as int);
            let entry = cfg@.guilds[k as int];
            assert(entry == (id, cfg.server_cfgs@[k as int].1@));
            lemma_enc_guilds_snoc(taken, entry);
            assert(taken.push(entry) =~= cfg@.guilds.take(k as int + 1));
            assert((head + spec_enc_guilds(taken)) + spec_enc_guild(entry) =~= head + (
            spec_enc_guilds(taken) + spec_enc_guild(entry)));
        }
        k = k + 1;
    }
    proof {
        assert(cfg@.guilds.take(n as int) =~= cfg@.guilds);
        assert(head + spec_enc_guilds(cfg@.guilds) =~= spec_enc_config(cfg@));
    }
    out
}


/// The greatest key already decoded, used to demand ascending order;
/// an empty list bounds nothing.
spec fn lo_of<V>(s: Seq<(u64, V)>) -> int {
    if s.len() == 0 {
        -1
    } else {
        s.last().0 as int
    }
}

/// The guild models a decoded representation list stands for.
spec fn models_of(s: Seq<(u64, ServerAudioStruct)>) -> Seq<(u64, GuildModel)> {
    Seq::new(s.len(), |i: int| (s[i].0, s[i].1@))
}

/// Reads one 64-bit little-endian word at position `i`.
fn parse_u64(bytes: &Vec<u8>, i: usize) -> (r: Option<(u64, usize)>)
    ensures
        match r {
            Some((x, j)) => p_u64(bytes@, i as int) == Some((x, j as int)) && j as int == i + 8
                && j <= bytes@.len(),
            None => p_u64(bytes@, i as int) is None,
        },
{
    if i <= bytes.len() && bytes.len() - i >= 8 {
        let s = slice_subrange(bytes.as_slice(), i, i + 8);
        let x = u64_from_le_bytes(s);
        Some((x, i + 8))
    } else {
        None
    }
}

/// The positive permission level a wire tag stands for, if any.
fn tag_to_perm(t: u64) -> (r: Option<BotPermission>)
    ensures
        r == spec_perm_of_tag(t),
{
    if t == 1 {
        Some(BotPermission::User)
    } else if t == 2 {
        Some(BotPermission::Moderator)
    } else if t == 3 {
        Some(BotPermission::Admin)
    } else if t == 4 {
        Some(BotPermission::Owner)
    } else {
        None
    }
}

/// The operating mode a wire tag stands for, if any.
fn tag_to_mode(t: u64) -> (r: Option<BotModes>)
    ensures
        r == spec_mode_of_tag(t),
{
    if t == 0 {
        Some(BotModes::Latex)
    } else if t == 1 {
        Some(BotModes::Music)
    } else if t == 2 {
        Some(BotModes::Soundboard)
    } else if t == 3 {
        Some(BotModes::All)
    } else {
        None
    }
}

/// The display status a wire tag stands for, if any.
fn tag_to_activity(t: u64) -> (r: Option<ActivityKind>)
    ensures
        r == spec_activity_of_tag(t),
{
    if t == 0 {
        Some(ActivityKind::Playing)
    } else if t == 1 {
        Some(ActivityKind::Streaming)
    } else if t == 2 {
        Some(ActivityKind::Listening)
    } else if t == 3 {
        Some(ActivityKind::Watching)
    } else if t == 4 {
        Some(ActivityKind::Competing)
    } else {
        None
    }
}

/// The boolean a wire word stands for, if any.
fn word_to_bool(t: u64) -> (r: Option<bool>)
    ensures
        r == spec_bool_of_word(t),
{
    if t == 0 {
        Some(false)
    } else if t == 1 {
        Some(true)
    } else {
        None
    }
}

/// Relies on char::from_u32: it returns the character whose code is
/// `v` exactly when `v` is a unicode scalar value (below 0xD800, or in
/// 0xE000..=0x10FFFF), and `None` otherwise.
#[verifier::external_body]
fn char_from_code(v: u32) -> (r: Option<char>)
    ensures
        r == spec_char_of_code(v as u64),
{
    char::from_u32(v)
}

/// Decodes `n` grant entries from position `start`.
fn parse_grants(bytes: &Vec<u8>, start: usize, n: u64) -> (r: Option<
    (Vec<(u64, BotPermission)>, usize),
>)
    requires
        start <= bytes@.len(),
    ensures
        match r {
            Some((v, j)) => p_grants(bytes@, start as int, n as nat, -1) == Some((v@, j as int))
                && j <= bytes@.len(),
            None => p_grants(bytes@, start as int, n as nat, -1) is None,
        },
{
    let mut acc: Vec<(u64, BotPermission)> = Vec::new();
    let mut i: usize = start;
    let mut rem: u64 = n;
    proof {
        assert(lo_of(acc@) == -1);
    }
    while rem > 0
        invariant
            i <= bytes@.len(),
            acc@.len() + rem == n,
            p_grants(bytes@, start as int, n as nat, -1) == (match p_grants(
                bytes@,
                i as int,
                rem as nat,
                lo_of(acc@),
            ) {
                None => None::<(Seq<(u64, BotPermission)>, int)>,
                Some((rest, j)) => Some((acc@ + rest, j)),
            }),
        decreases rem,
    {
        let ghost acc_old = acc@;
        let ghost i_old = i;
        let ghost rem_old = rem;
        let (id, i1) = match parse_u64(bytes, i) {
            Some(x) => x,
            None => {
                return None;
            },
        };
        if acc.len() > 0 {
            let last = acc[acc.len() - 1].0;
            if id <= last {
                proof {
                    assert(id as int <= lo_of(acc@));
                }
                return None;
            }
        }
        proof {
            assert(id as int > lo_of(acc_old));
        }
        let (tag, i2) = match parse_u64(bytes, i1) {
            Some(x) => x,
            None => {
                return None;
            },
        };
        let p = match tag_to_perm(tag) {
            Some(p) => p,
            None => {
                return None;
            },
        };
        acc.push((id, p));
        i = i2;
        rem = rem - 1;
        proof {
            assert(acc@ == acc_old.push((id, p)));
            assert(acc@.last() == (id, p));
            assert(lo_of(acc@) == id as int);
            assert(p_grants(bytes@, i_old as int, rem_old as nat, lo_of(acc_old)) == (match
            p_grants(bytes@, i as int, rem as nat, id as int) {
                None => None::<(Seq<(u64, BotPermission)>, int)>,
                Some((rest, j)) => Some((seq![(id, p)] + rest, j)),
            }));
            let inner = p_grants(bytes@, i as int, rem as nat, id as int);
            match inner {
                Some((rest, j)) => {
                    assert(acc_old + (seq![(id, p)] + rest) =~= acc@ + rest);
                },
                None => {},
            }
        }
    }
    proof {
        assert(p_grants(bytes@, i as int, 0, lo_of(acc@)) == Some(
            (Seq::<(u64, BotPermission)>::empty(), i as int),
        ));
        assert(acc@ + Seq::<(u64, BotPermission)>::empty() =~= acc@);
    }
    Some((acc, i))
}

/// Decodes one guild record from position `start`.
fn parse_guild(bytes: &Vec<u8>, start: usize) -> (r: Option<((u64, ServerAudioStruct), usize)>)
    ensures
        match r {
            Some((e, j)) => p_guild(bytes@, start as int) == Some(((e.0, e.1@), j as int))
                && j <= bytes@.len(),
            None => p_guild(bytes@, start as int) is None,
        },
{
    let (id, i1) = match parse_u64(bytes, start) {
        Some(x) => x,
        None => {
            return None;
        },
    };
    let (vol, i2) = match parse_u64(bytes, i1) {
        Some(x) => x,
        None => {
            return None;
        },
    };
    if !(10 <= vol && vol <= 100) {
        return None;
    }
    let (apw, i3) = match parse_u64(bytes, i2) {
        Some(x) => x,
        None => {
            return None;
        },
    };
    let ap = match word_to_bool(apw) {
        Some(b) => b,
        None => {
            return None;
        },
    };
    let (udw, i4) = match parse_u64(bytes, i3) {
        Some(x) => x,
        None => {
            return None;
        },
    };
    let ud = match word_to_bool(udw) {
        Some(b) => b,
        None => {
            return None;
        },
    };
    let (cnt, i5) = match parse_u64(bytes, i4) {
        Some(x) => x,
        None => {
            return None;
        },
    };
    let (grants, j) = match parse_grants(bytes, i5, cnt) {
        Some(x) => x,
        None => {
            return None;
        },
    };
    let sas = ServerAudioStruct {
        volume: vol as u8,
        auto_playlist: ap,
        user_default: ud,
        entity_permission: grants,
    };
    Some(((id, sas), j))
}

/// Decodes `n` guild records from position `start`.
fn parse_guilds(bytes: &Vec<u8>, start: usize, n: u64) -> (r: Option<
    (Vec<(u64, ServerAudioStruct)>, usize),
>)
    requires
        start <= bytes@.len(),
    ensures
        match r {
            Some((v, j)) => p_guilds(bytes@, start as int, n as nat, -1) == Some(
                (models_of(v@), j as int),
            ) && j <= bytes@.len(),
            None => p_guilds(bytes@, start as int, n as nat, -1) is None,
        },
{
    let mut acc: Vec<(u64, ServerAudioStruct)> = Vec::new();
    let mut i: usize = start;
    let mut rem: u64 = n;
    proof {
        assert(lo_of(acc@) == -1);
        assert(models_of(acc@) =~= Seq::<(u64, GuildModel)>::empty());
    }
    while rem > 0
        invariant
            i <= bytes@.len(),
            acc@.len() + rem == n,
            p_guilds(bytes@, start as int, n as nat, -1) == (match p_guilds(
                bytes@,
                i as int,
                rem as nat,
                lo_of(acc@),
            ) {
                None => None::<(Seq<(u64, GuildModel)>, int)>,
                Some((rest, j)) => Some((models_of(acc@) + rest, j)),
            }),
        decreases rem,
    {
        let ghost acc_old = acc@;
        let ghost i_old = i;
        let ghost rem_old = rem;
        let (entry, i1) = match parse_guild(bytes, i) {
            Some(x) => x,
            None => {
                return None;
            },
        };
        if acc.len() > 0 {
            let last = acc[acc.len() - 1].0;
            if entry.0 <= last {
                proof {
                    assert(entry.0 as int <= lo_of(acc@));
                }
                return None;
            }
        }
        proof {
            assert(entry.0 as int > lo_of(acc_old));
        }
        let ghost e_model = (entry.0, entry.1@);
        acc.push(entry);
        i = i1;
        rem = rem - 1;
        proof {
            assert(acc@ == acc_old.push((e_model.0, entry.1)));
            assert(acc@.last().0 == e_model.0);
            assert(lo_of(acc@) == e_model.0 as int);
            assert(models_of(acc@) =~= models_of(acc_old).push(e_model));
            assert(p_guilds(bytes@, i_old as int, rem_old as nat, lo_of(acc_old)) == (match
            p_guilds(bytes@, i as int, rem as nat, e_model.0 as int) {
                None => None::<(Seq<(u64, GuildModel)>, int)>,
                Some((rest, j)) => Some((seq![e_model] + rest, j)),
            }));
            let inner = p_guilds(bytes@, i as int, rem as nat, e_model.0 as int);
            match inner {
                Some((rest, j)) => {
                    assert(models_of(acc_old) + (seq![e_model] + rest) =~= models_of(acc@) + rest);
                },
                None => {},
            }
        }
    }
    proof {
        assert(p_guilds(bytes@, i as int, 0, lo_of(acc@)) == Some(
            (Seq::<(u64, GuildModel)>::empty(), i as int),
        ));
        assert(models_of(acc@) + Seq::<(u64, GuildModel)>::empty() =~= models_of(acc@));
    }
    Some((acc, i))
}

/// Parses a serialized store. Succeeds exactly on the encodings of
/// well-formed stores — the byte strings `encode_config` produces —
/// and returns the store they encode; any other input is rejected.
pub fn decode_config(bytes: &Vec<u8>) -> (r: Result<ConfigStruct, ParseError>)
    ensures
        match r {
            Ok(c) => spec_parse_config(bytes@) == Some(c@) && c@.wf() && spec_counts_bounded(c@),
            Err(e) => spec_parse_config(bytes@) is None,
        },
{
    let (owner, i1) = match parse_u64(bytes, 0) {
        Some(x) => x,
        None => {
            return Err(ParseError);
        },
    };
    let (pfx, i2) = match parse_u64(bytes, i1) {
        Some(x) => x,
        None => {
            return Err(ParseError);
        },
    };
    if pfx > 0x10FFFF {
        return Err(ParseError);
    }
    let prefix = match char_from_code(pfx as u32) {
        Some(c) => c,
        None => {
            return Err(ParseError);
        },
    };
    let (arw, i3) = match parse_u64(bytes, i2) {
        Some(x) => x,
        None => {
            return Err(ParseError);
        },
    };
    let auto_reconnect = match word_to_bool(arw) {
        Some(b) => b,
        None => {
            return Err(ParseError);
        },
    };
    let (mw, i4) = match parse_u64(bytes, i3) {
        Some(x) => x,
        None => {
            return Err(ParseError);
        },
    };
    let bot_mode = match tag_to_mode(mw) {
        Some(m) => m,
        None => {
            return Err(ParseError);
        },
    };
    let (aw, i5) = match parse_u64(bytes, i4) {
        Some(x) => x,
        None => {
            return Err(ParseError);
        },
    };
    let activity = match tag_to_activity(aw) {
        Some(a) => a,
        None => {
            return Err(ParseError);
        },
    };
    let (cnt, i6) = match parse_u64(bytes, i5) {
        Some(x) => x,
        None => {
            return Err(ParseError);
        },
    };
    let (server_cfgs, j) = match parse_guilds(bytes, i6, cnt) {
        Some(x) => x,
        None => {
            return Err(ParseError);
        },
    };
    if j != bytes.len() {
        return Err(ParseError);
    }
    let c = ConfigStruct {
        owner_id: owner,
        prefix: prefix,
        auto_reconnect: auto_reconnect,
        bot_mode: bot_mode,
        activity: activity,
        server_cfgs: server_cfgs,
    };
    proof {
        assert(c@.guilds =~= models_of(c.server_cfgs@));
        lemma_parse_config_wf(bytes@);
        match spec_parse_config(bytes@) {
            Some(m) => {
                assert(c@ =~= m);
            },
            None => {},
        }
    }
    Ok(c)
}

} // verus!
