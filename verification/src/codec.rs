//! Decoder for the `statusResponse` payload: header line, `\key\value`
//! variables, and one player record per remaining line.

use vstd::prelude::*;

use crate::error::DecodeFault;
use crate::error::QueryError;
use crate::scan::find_byte;
use crate::scan::is_digit;
use crate::scan::parse_uint_or_zero;
use crate::scan::spec_find;
use crate::scan::spec_split;
use crate::scan::spec_tokens;
use crate::scan::spec_uint_or_zero;
use crate::scan::split_on_byte;
use crate::scan::tokenize;
use vstd::slice::slice_subrange;

verus! {

/// Line separator between the header, the variables, and each player.
pub const NEWLINE: u8 = 10;

/// Delimiter between variable keys and values.
pub const BACKSLASH: u8 = 92;

/// Sentinel first byte of a padding player line.
pub const NUL: u8 = 0;

/// The text that a byte sequence decodes to under UTF-8 with lossy
/// replacement of invalid sequences.
pub uninterp spec fn lossy_utf8(bytes: Seq<u8>) -> Seq<char>;

/// Relies on `String::from_utf8_lossy`: never fails, maps invalid UTF-8
/// sequences to replacement characters, and depends on the bytes alone.
#[verifier::external_body]
fn to_text_lossy(bytes: &[u8]) -> (r: String)
    ensures
        r@ == lossy_utf8(bytes@),
{
    String::from_utf8_lossy(bytes).into_owned()
}

/// One connected player as reported by the server.
#[derive(Debug, Clone, PartialEq, Eq)]
pub struct Player {
    /// Score field; zero when the reported field was not numeric.
    pub score: u32,
    /// Ping field; zero when the reported field was not numeric.
    pub ping: u16,
    /// Raw name token, colour codes and all.
    pub name: String,
}

/// Mathematical image of a [`Player`].
#[verifier::ext_equal]
pub struct PlayerModel {
    pub score: u32,
    pub ping: u16,
    pub name: Seq<char>,
}

impl View for Player {
    type V = PlayerModel;

    open spec fn view(&self) -> PlayerModel {
        PlayerModel { score: self.score, ping: self.ping, name: self.name@ }
    }
}

/// Mathematical image of a [`StatusResponse`]: the variables as a mapping
/// with unique keys, the players in wire order.
#[verifier::ext_equal]
pub struct StatusModel {
    pub header: Seq<char>,
    pub variables: Map<Seq<char>, Seq<char>>,
    pub players: Seq<PlayerModel>,
}

/// A decoded status reply: the raw header line, the server's configuration
/// variables (last occurrence of a duplicated key wins), and the player
/// roster in the order the server sent it.
#[derive(Debug, Clone, PartialEq, Eq)]
pub struct StatusResponse {
    pub header: String,
    pub variables: Vec<(String, String)>,
    pub players: Vec<Player>,
}

/// The mapping a key/value list denotes when read front to back with later
/// entries overwriting earlier ones.
pub open spec fn string_pairs_map(vs: Seq<(String, String)>) -> Map<Seq<char>, Seq<char>>
    decreases vs.len(),
{
    if vs.len() == 0 {
        Map::<Seq<char>, Seq<char>>::empty()
    } else {
        string_pairs_map(vs.drop_last()).insert(vs.last().0@, vs.last().1@)
    }
}

/// No two entries share a key.
pub open spec fn keys_unique(vs: Seq<(String, String)>) -> bool {
    forall|a: int, b: int| 0 <= a < b < vs.len() ==> vs[a].0@ != vs[b].0@
}

/// The players of `ps`, viewed as models.
pub open spec fn players_view(ps: Seq<Player>) -> Seq<PlayerModel> {
    Seq::new(ps.len(), |i: int| ps[i]@)
}

impl View for StatusResponse {
    type V = StatusModel;

    open spec fn view(&self) -> StatusModel {
        StatusModel {
            header: self.header@,
            variables: string_pairs_map(self.variables@),
            players: players_view(self.players@),
        }
    }
}

impl StatusResponse {
    /// The variable list never holds a key twice.
    pub open spec fn wf(self) -> bool {
        keys_unique(self.variables@)
    }

    /// Looks the value of a variable up by its name.
    pub fn variable(&self, key: &String) -> (r: Option<String>)
        requires
            self.wf(),
        ensures
            match r {
                Some(v) => self@.variables.dom().contains(key@) && v@ == self@.variables[key@],
                None => !self@.variables.dom().contains(key@),
            },
    {
        let n = self.variables.len();
        let mut i: usize = 0;
        while i < n
            invariant
                0 <= i <= n,
                n == self.variables@.len(),
                keys_unique(self.variables@),
                forall|j: int| 0 <= j < i ==> self.variables@[j].0@ != key@,
            decreases n - i,
        {
            if self.variables[i].0 == *key {
                let v = self.variables[i].1.clone();
                proof {
                    lemma_pairs_map_at_key(self.variables@, i as int);
                }
                return Some(v);
            }
            i += 1;
        }
        proof {
            lemma_pairs_map_key_absent(self.variables@, key@);
        }
        None
    }
}

proof fn lemma_pairs_map_key_absent(vs: Seq<(String, String)>, k: Seq<char>)
    requires
        forall|i: int| 0 <= i < vs.len() ==> vs[i].0@ != k,
    ensures
        !string_pairs_map(vs).dom().contains(k),
    decreases vs.len(),
{
    if vs.len() > 0 {
        lemma_pairs_map_key_absent(vs.drop_last(), k);
    }
}

proof fn lemma_pairs_map_at_key(vs: Seq<(String, String)>, j: int)
    requires
        keys_unique(vs),
        0 <= j < vs.len(),
    ensures
        string_pairs_map(vs).dom().contains(vs[j].0@),
        string_pairs_map(vs)[vs[j].0@] == vs[j].1@,
    decreases vs.len(),
{
    if j < vs.len() - 1 {
        lemma_pairs_map_at_key(vs.drop_last(), j);
    }
}

proof fn lemma_pairs_map_update(vs: Seq<(String, String)>, j: int, p: (String, String))
    requires
        keys_unique(vs),
        0 <= j < vs.len(),
        vs[j].0@ == p.0@,
    ensures
        string_pairs_map(vs.update(j, p)) =~= string_pairs_map(vs).insert(p.0@, p.1@),
    decreases vs.len(),
{
    if j == vs.len() - 1 {
        assert(vs.update(j, p).drop_last() =~= vs.drop_last());
        assert(vs.update(j, p).last() == p);
    } else {
        assert(vs.update(j, p).drop_last() =~= vs.drop_last().update(j, p));
        assert(keys_unique(vs.drop_last()));
        lemma_pairs_map_update(vs.drop_last(), j, p);
        assert(vs.last().0@ != p.0@);
        assert(vs.update(j, p).last() == vs.last());
    }
}

/// Records `key = val` in the variable list, overwriting an existing entry
/// for the same key and appending otherwise.
fn insert_var(vars: &mut Vec<(String, String)>, key: String, val: String)
    requires
        keys_unique(old(vars)@),
    ensures
        keys_unique(final(vars)@),
        string_pairs_map(final(vars)@) == string_pairs_map(old(vars)@).insert(key@, val@),
{
    let ghost k = key@;
    let ghost v = val@;
    let n = vars.len();
    let mut i: usize = 0;
    while i < n
        invariant
            0 <= i <= n,
            n == vars@.len(),
            vars@ == old(vars)@,
            keys_unique(vars@),
            k == key@,
            v == val@,
            forall|j: int| 0 <= j < i ==> vars@[j].0@ != k,
        decreases n - i,
    {
        if vars[i].0 == key {
            let ghost before = vars@;
            vars[i] = (key, val);
            proof {
                assert(vars@ == before.update(i as int, (vars@[i as int].0, vars@[i as int].1)));
                assert(vars@[i as int].0@ == k && vars@[i as int].1@ == v);
                lemma_pairs_map_update(before, i as int, vars@[i as int]);
                assert(forall|a: int, b: int| 0 <= a < b < vars@.len() ==> vars@[a].0@ != vars@[b].0@) by {
                    assert(forall|a: int| 0 <= a < vars@.len() && a != i ==> vars@[a] == before[a]);
                }
            }
            return;
        }
        i += 1;
    }
    let ghost before = vars@;
    vars.push((key, val));
    proof {
        assert(vars@.drop_last() =~= before);
        assert(vars@.last().0@ == k && vars@.last().1@ == v);
        assert(forall|a: int, b: int| 0 <= a < b < vars@.len() ==> vars@[a].0@ != vars@[b].0@) by {
            assert(forall|a: int| 0 <= a < before.len() ==> vars@[a] == before[a]);
        }
    }
}

/// Whether the payload has the newline that separates header from body.
pub open spec fn has_header_sep(p: Seq<u8>) -> bool {
    spec_find(p, NEWLINE) is Some
}

/// The raw header: everything before the first newline.
pub open spec fn spec_header(p: Seq<u8>) -> Seq<u8> {
    p.take(spec_find(p, NEWLINE).unwrap())
}

/// The body: everything after the first newline.
pub open spec fn spec_body(p: Seq<u8>) -> Seq<u8> {
    p.skip(spec_find(p, NEWLINE).unwrap() + 1)
}

/// Whether the body has the newline that separates variables from players.
pub open spec fn has_body_sep(p: Seq<u8>) -> bool {
    has_header_sep(p) && spec_find(spec_body(p), NEWLINE) is Some
}

/// Whether the payload splits into header, variables and players at all.
pub open spec fn decode_ok(p: Seq<u8>) -> bool {
    has_header_sep(p) && has_body_sep(p)
}

/// The variables segment: the body up to its first newline.
pub open spec fn spec_vars_seg(p: Seq<u8>) -> Seq<u8> {
    spec_body(p).take(spec_find(spec_body(p), NEWLINE).unwrap())
}

/// The players segment: the body after its first newline.
pub open spec fn spec_players_seg(p: Seq<u8>) -> Seq<u8> {
    spec_body(p).skip(spec_find(spec_body(p), NEWLINE).unwrap() + 1)
}

/// Drops the leading run of empty segments, the wire format's convention of
/// starting variable data with its delimiter.
pub open spec fn drop_leading_empty(segs: Seq<Seq<u8>>) -> Seq<Seq<u8>>
    decreases segs.len(),
{
    if segs.len() > 0 && segs[0].len() == 0 {
        drop_leading_empty(segs.drop_first())
    } else {
        segs
    }
}

/// Consumes tokens two at a time as key/value pairs; an unpaired trailing
/// token is dropped.
pub open spec fn pair_up(toks: Seq<Seq<u8>>) -> Seq<(Seq<u8>, Seq<u8>)>
    decreases toks.len(),
{
    if toks.len() >= 2 {
        seq![(toks[0], toks[1])] + pair_up(toks.skip(2))
    } else {
        Seq::<(Seq<u8>, Seq<u8>)>::empty()
    }
}

/// The mapping denoted by a sequence of raw key/value pairs, decoded to
/// text, with later duplicate keys overwriting earlier ones.
pub open spec fn vars_map_of(pairs: Seq<(Seq<u8>, Seq<u8>)>) -> Map<Seq<char>, Seq<char>>
    decreases pairs.len(),
{
    if pairs.len() == 0 {
        Map::<Seq<char>, Seq<char>>::empty()
    } else {
        vars_map_of(pairs.drop_last()).insert(
            lossy_utf8(pairs.last().0),
            lossy_utf8(pairs.last().1),
        )
    }
}

/// The raw key/value pairs of the payload's variables segment.
pub open spec fn spec_var_pairs(p: Seq<u8>) -> Seq<(Seq<u8>, Seq<u8>)> {
    pair_up(drop_leading_empty(spec_split(spec_vars_seg(p), BACKSLASH)))
}

/// Whether a player line contributes a record: not a NUL-prefixed padding
/// line, and at least three whitespace-separated fields.  Lines with fewer
/// fields (empty lines included) are skipped rather than failing the decode.
pub open spec fn line_kept(l: Seq<u8>) -> bool {
    !(l.len() > 0 && l[0] == NUL) && spec_tokens(l).len() >= 3
}

/// The record a kept player line denotes: first field the score, second the
/// ping (each zero when not numeric), third field the name, any further
/// fields dropped.
pub open spec fn player_of_line(l: Seq<u8>) -> PlayerModel {
    PlayerModel {
        score: spec_uint_or_zero(spec_tokens(l)[0], u32::MAX as u64) as u32,
        ping: spec_uint_or_zero(spec_tokens(l)[1], u16::MAX as u64) as u16,
        name: lossy_utf8(spec_tokens(l)[2]),
    }
}

/// The records of a sequence of player lines, in order, kept lines only.
pub open spec fn players_of_lines(lines: Seq<Seq<u8>>) -> Seq<PlayerModel>
    decreases lines.len(),
{
    if lines.len() == 0 {
        Seq::<PlayerModel>::empty()
    } else {
        (if line_kept(lines[0]) {
            seq![player_of_line(lines[0])]
        } else {
            Seq::<PlayerModel>::empty()
        }) + players_of_lines(lines.drop_first())
    }
}

/// The full status record a well-formed payload denotes.
pub open spec fn status_model(p: Seq<u8>) -> StatusModel {
    StatusModel {
        header: lossy_utf8(spec_header(p)),
        variables: vars_map_of(spec_var_pairs(p)),
        players: players_of_lines(spec_split(spec_players_seg(p), NEWLINE)),
    }
}

/// Everything `decode_status` promises about its result for payload `p`.
pub open spec fn decode_post(p: Seq<u8>, r: Result<StatusResponse, QueryError>) -> bool {
    &&& (r is Ok <==> decode_ok(p))
    &&& (r is Ok ==> r->Ok_0@ == status_model(p) && r->Ok_0.wf())
    &&& (!has_header_sep(p) ==> r == Err::<StatusResponse, QueryError>(
        QueryError::MalformedResponse(DecodeFault::MissingHeaderSeparator),
    ))
    &&& (has_header_sep(p) && !has_body_sep(p) ==> r == Err::<StatusResponse, QueryError>(
        QueryError::MalformedResponse(DecodeFault::MissingBodySeparator),
    ))
}

/// A NUL-prefixed line contributes no player, wherever it stands among the
/// player lines.
pub proof fn lemma_nul_line_ignored(lines: Seq<Seq<u8>>, i: int, l: Seq<u8>)
    requires
        0 <= i <= lines.len(),
        l.len() > 0,
        l[0] == NUL,
    ensures
        players_of_lines(lines.insert(i, l)) == players_of_lines(lines),
    decreases lines.len(),
{
    assert(!line_kept(l));
    if i == 0 {
        assert(lines.insert(0, l) =~= seq![l] + lines);
        assert((seq![l] + lines)[0] == l);
        assert((seq![l] + lines).drop_first() =~= lines);
    } else {
        let ins = lines.insert(i, l);
        assert(ins[0] == lines[0]);
        assert(ins.drop_first() =~= lines.drop_first().insert(i - 1, l));
        lemma_nul_line_ignored(lines.drop_first(), i - 1, l);
    }
}

/// Among duplicated keys, the last pair carrying the key supplies the value
/// the mapping ends up with.
pub proof fn lemma_last_write_wins(pairs: Seq<(Seq<u8>, Seq<u8>)>, j: int)
    requires
        0 <= j < pairs.len(),
        forall|j2: int| j < j2 < pairs.len() ==> lossy_utf8(pairs[j2].0) != lossy_utf8(pairs[j].0),
    ensures
        vars_map_of(pairs).dom().contains(lossy_utf8(pairs[j].0)),
        vars_map_of(pairs)[lossy_utf8(pairs[j].0)] == lossy_utf8(pairs[j].1),
    decreases pairs.len(),
{
    if j < pairs.len() - 1 {
        assert(pairs.drop_last()[j] == pairs[j]);
        assert(forall|j2: int| j < j2 < pairs.drop_last().len() ==> pairs.drop_last()[j2] == pairs[j2]);
        lemma_last_write_wins(pairs.drop_last(), j);
        assert(lossy_utf8(pairs.last().0) != lossy_utf8(pairs[j].0));
    }
}

/// A non-numeric score or ping field yields zero rather than a decode
/// failure: a byte in the field that is neither a digit nor a leading `+`
/// forces the default.
pub proof fn lemma_non_numeric_field_defaults(l: Seq<u8>, k: int, i: int)
    requires
        line_kept(l),
        k == 0 || k == 1,
        0 <= i < spec_tokens(l)[k].len(),
        !is_digit(spec_tokens(l)[k][i]),
        !(i == 0 && spec_tokens(l)[k][i] == 43),
    ensures
        k == 0 ==> player_of_line(l).score == 0,
        k == 1 ==> player_of_line(l).ping == 0,
{
    if k == 0 {
        crate::scan::lemma_unparsable_uint(spec_tokens(l)[k], i, u32::MAX as u64);
    } else {
        crate::scan::lemma_unparsable_uint(spec_tokens(l)[k], i, u16::MAX as u64);
    }
}

/// Decoding is a pure function of the payload bytes: any two results that
/// meet the decoder's contract for the same payload agree, outcome for
/// outcome and view for view.
pub proof fn lemma_decode_deterministic(
    p: Seq<u8>,
    r1: Result<StatusResponse, QueryError>,
    r2: Result<StatusResponse, QueryError>,
)
    requires
        decode_post(p, r1),
        decode_post(p, r2),
    ensures
        r1 is Ok <==> r2 is Ok,
        r1 is Ok ==> r1->Ok_0@ == r2->Ok_0@,
        r1 is Err ==> r1 == r2,
{
}

/// Parses a variables segment into its key/value list, later duplicate keys
/// overwriting earlier ones.
fn parse_variables(seg: &[u8]) -> (vars: Vec<(String, String)>)
    ensures
        keys_unique(vars@),
        string_pairs_map(vars@) == vars_map_of(pair_up(drop_leading_empty(spec_split(seg@, BACKSLASH)))),
{
    let segs = split_on_byte(seg, BACKSLASH);
    let ghost dv = segs.deep_view();
    let n = segs.len();
    let mut k: usize = 0;
    proof {
        assert(dv.skip(0) =~= dv);
    }
    while k < n && segs[k].len() == 0
        invariant
            0 <= k <= n,
            n == segs@.len(),
            dv == segs.deep_view(),
            drop_leading_empty(dv.skip(k as int)) == drop_leading_empty(dv),
        decreases n - k,
    {
        proof {
            assert(dv.skip(k as int)[0] == dv[k as int]);
            assert(dv[k as int] =~= segs@[k as int]@);
            assert(dv.skip(k as int).drop_first() =~= dv.skip(k as int + 1));
        }
        k += 1;
    }
    proof {
        if k < n {
            assert(dv.skip(k as int)[0] == dv[k as int]);
            assert(dv[k as int] =~= segs@[k as int]@);
            assert(dv[k as int].len() > 0);
        } else {
            assert(dv.skip(k as int) =~= Seq::<Seq<u8>>::empty());
        }
        assert(drop_leading_empty(dv.skip(k as int)) == dv.skip(k as int));
    }
    let ghost pairs = pair_up(dv.skip(k as int));
    let mut vars: Vec<(String, String)> = Vec::new();
    let mut j: usize = k;
    let ghost mut m: int = 0;
    while n - j > 1
        invariant
            k <= j <= n,
            n == segs@.len(),
            dv == segs.deep_view(),
            pairs == pair_up(dv.skip(k as int)),
            0 <= m <= pairs.len(),
            pair_up(dv.skip(j as int)) == pairs.skip(m),
            keys_unique(vars@),
            string_pairs_map(vars@) == vars_map_of(pairs.take(m)),
        decreases n - j,
    {
        proof {
            assert(dv.skip(j as int)[0] == dv[j as int]);
            assert(dv.skip(j as int)[1] == dv[j as int + 1]);
            assert(dv.skip(j as int).skip(2) =~= dv.skip(j as int + 2));
            assert(pair_up(dv.skip(j as int)) ==
                seq![(dv[j as int], dv[j as int + 1])] + pair_up(dv.skip(j as int + 2)));
            assert(pairs.skip(m).len() > 0);
            assert(pairs.skip(m)[0] == (dv[j as int], dv[j as int + 1]));
            assert(pairs.skip(m)[0] == pairs[m]);
            assert(pairs.skip(m).drop_first() =~= pairs.skip(m + 1));
            assert(pair_up(dv.skip(j as int + 2)) =~= pairs.skip(m + 1));
            assert(dv[j as int] =~= segs@[j as int]@);
            assert(dv[j as int + 1] =~= segs@[j as int + 1]@);
        }
        let key = to_text_lossy(segs[j].as_slice());
        let val = to_text_lossy(segs[j + 1].as_slice());
        insert_var(&mut vars, key, val);
        proof {
            assert(pairs.take(m + 1).drop_last() =~= pairs.take(m));
            assert(pairs.take(m + 1).last() == pairs[m]);
            assert(vars_map_of(pairs.take(m + 1)) ==
                vars_map_of(pairs.take(m)).insert(lossy_utf8(pairs[m].0), lossy_utf8(pairs[m].1)));
        }
        j += 2;
        proof {
            m = m + 1;
        }
    }
    proof {
        assert(pair_up(dv.skip(j as int)).len() == 0);
        assert(pairs.skip(m).len() == 0);
        assert(pairs.take(m) =~= pairs);
    }
    vars
}

/// Parses a players segment into its roster, skipping padding and
/// too-short lines.
fn parse_players(seg: &[u8]) -> (ps: Vec<Player>)
    ensures
        players_view(ps@) == players_of_lines(spec_split(seg@, NEWLINE)),
{
    let lines = split_on_byte(seg, NEWLINE);
    let ghost lns = lines.deep_view();
    let n = lines.len();
    let mut ps: Vec<Player> = Vec::new();
    let mut i: usize = 0;
    proof {
        assert(lns.skip(0) =~= lns);
        assert(players_view(ps@) =~= Seq::<PlayerModel>::empty());
    }
    while i < n
        invariant
            0 <= i <= n,
            n == lines@.len(),
            lns == lines.deep_view(),
            players_view(ps@) + players_of_lines(lns.skip(i as int)) =~= players_of_lines(lns),
        decreases n - i,
    {
        let ghost l = lns[i as int];
        proof {
            assert(lns.skip(i as int)[0] == l);
            assert(lns.skip(i as int).drop_first() =~= lns.skip(i as int + 1));
            assert(players_of_lines(lns.skip(i as int)) == (if line_kept(l) {
                seq![player_of_line(l)]
            } else {
                Seq::<PlayerModel>::empty()
            }) + players_of_lines(lns.skip(i as int + 1)));
            assert(l =~= lines@[i as int]@);
        }
        let line = &lines[i];
        let padding = line.len() > 0 && line[0] == NUL;
        if !padding {
            let toks = tokenize(line.as_slice());
            proof {
                assert(toks.deep_view() == spec_tokens(l));
            }
            if toks.len() >= 3 {
                proof {
                    assert(line_kept(l));
                    assert(toks.deep_view()[0] =~= toks@[0]@);
                    assert(toks.deep_view()[1] =~= toks@[1]@);
                    assert(toks.deep_view()[2] =~= toks@[2]@);
                }
                let score = parse_uint_or_zero(toks[0].as_slice(), 0xFFFF_FFFFu64);
                let ping = parse_uint_or_zero(toks[1].as_slice(), 0xFFFFu64);
                let name = to_text_lossy(toks[2].as_slice());
                let ghost before = players_view(ps@);
                let player = Player { score: score as u32, ping: ping as u16, name };
                proof {
                    assert(player@ =~= player_of_line(l));
                }
                ps.push(player);
                proof {
                    assert(players_view(ps@) =~= before + seq![player_of_line(l)]);
                }
            } else {
                proof {
                    assert(!line_kept(l));
                }
            }
        } else {
            proof {
                assert(!line_kept(l));
            }
        }
        i += 1;
    }
    proof {
        assert(lns.skip(n as int) =~= Seq::<Seq<u8>>::empty());
        assert(players_view(ps@) + players_of_lines(lns.skip(n as int)) =~= players_view(ps@));
    }
    ps
}

/// Decodes a raw status reply datagram.
///
/// The payload splits at its first newline into header and body and at the
/// body's first newline into variables and players; a payload without either
/// separator is rejected as malformed.  Variables are `\`-delimited
/// key/value tokens after dropping the leading empty tokens, an unpaired
/// trailing token is dropped, and the last occurrence of a duplicated key
/// wins.  Each remaining line yields one player — score, ping, then name —
/// except NUL-prefixed padding lines and lines with fewer than three
/// fields, which are skipped; non-numeric score or ping fields default to
/// zero rather than failing the decode.
pub fn decode_status(payload: &[u8]) -> (r: Result<StatusResponse, QueryError>)
    ensures
        decode_post(payload@, r),
{
    let h = match find_byte(payload, NEWLINE) {
        Some(i) => i,
        None => {
            return Err(QueryError::MalformedResponse(DecodeFault::MissingHeaderSeparator));
        },
    };
    proof {
        crate::scan::lemma_find_characterization(payload@, NEWLINE);
        assert(spec_find(payload@, NEWLINE) == Some(h as int));
        assert(0 <= h < payload@.len());
    }
    let payload_len = payload.len();
    let header_bytes = slice_subrange(payload, 0, h);
    let body = slice_subrange(payload, h + 1, payload_len);
    proof {
        assert(header_bytes@ =~= spec_header(payload@));
        assert(body@ =~= spec_body(payload@));
    }
    let b = match find_byte(body, NEWLINE) {
        Some(j) => j,
        None => {
            return Err(QueryError::MalformedResponse(DecodeFault::MissingBodySeparator));
        },
    };
    proof {
        crate::scan::lemma_find_characterization(body@, NEWLINE);
        assert(spec_find(body@, NEWLINE) == Some(b as int));
        assert(0 <= b < body@.len());
    }
    let body_len = body.len();
    let vars_seg = slice_subrange(body, 0, b);
    let players_seg = slice_subrange(body, b + 1, body_len);
    proof {
        assert(vars_seg@ =~= spec_vars_seg(payload@));
        assert(players_seg@ =~= spec_players_seg(payload@));
    }
    let header = to_text_lossy(header_bytes);
    let variables = parse_variables(vars_seg);
    let players = parse_players(players_seg);
    let resp = StatusResponse { header, variables, players };
    proof {
        assert(resp@ =~~= status_model(payload@));
    }
    Ok(resp)
}

} // verus!
