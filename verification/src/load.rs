//! The two input encodings. Text: NUL-separated records, each a path whose
//! components are separated by `/`; interning happens during the parse.
//! Binary: a side file of newline-separated component strings filling the
//! table from id 1 up, and a stream of little-endian 32-bit ids, each record
//! ended by a literal 0.
use vstd::prelude::*;
use crate::files::{entry_ids_valid, entry_views, ids_valid, Files};
use crate::intern::{intern_id, intern_view, table_has, StringTable};
use crate::trusted::{bytes_to_string, utf8_decode};

verus! {

/// Record separator of the text encoding.
pub const NUL: u8 = 0;

/// Component separator inside a record.
pub const SLASH: u8 = 47;

/// Line separator of the binary encoding's string file.
pub const NEWLINE: u8 = 10;

/// Carriage return, stripped from a line end.
pub const CR: u8 = 13;

/// Why loading failed.
#[derive(Clone, Copy, Debug, PartialEq, Eq, Structural)]
pub enum LoadError {
    /// A path component or table line is not valid UTF-8.
    BadUtf8,
    /// The id stream mentions an id with no string-table entry.
    UnknownId,
    /// The id stream ends inside a record, with no terminating 0.
    UnterminatedRecord,
    /// The id stream ends inside a 32-bit word.
    TruncatedWord,
    /// More distinct components than there are ids.
    TableFull,
    /// The binary string table names the same component twice, so ids would
    /// not be dense.
    DuplicateName,
}

/// The segments of `s` between occurrences of `sep`; a final segment ended
/// by the end of input counts, a final empty segment after a trailing
/// separator does not.
pub open spec fn split_on(s: Seq<u8>, sep: u8) -> Seq<Seq<u8>>
    decreases s.len(),
{
    if s.len() == 0 {
        Seq::empty()
    } else if s[0] == sep {
        seq![Seq::<u8>::empty()] + split_on(s.drop_first(), sep)
    } else {
        let rest = split_on(s.drop_first(), sep);
        if rest.len() == 0 {
            seq![seq![s[0]]]
        } else {
            seq![seq![s[0]] + rest[0]] + rest.drop_first()
        }
    }
}

/// Splitting takes the bytes before the first separator as the first
/// segment and continues after it.
pub proof fn lemma_split_step(s: Seq<u8>, sep: u8, i: int)
    requires
        0 <= i <= s.len(),
        forall|k: int| 0 <= k < i ==> s[k] != sep,
        i == s.len() || s[i] == sep,
    ensures
        i < s.len() ==> split_on(s, sep) == seq![s.take(i)] + split_on(s.skip(i + 1), sep),
        i == s.len() && s.len() > 0 ==> split_on(s, sep) == seq![s],
    decreases s.len(),
{
    if s.len() == 0 {
    } else if i == 0 {
        assert(s.take(0) =~= Seq::<u8>::empty());
        assert(s.skip(1) =~= s.drop_first());
        assert(split_on(s, sep) =~= seq![s.take(0)] + split_on(s.skip(1), sep));
    } else {
        let t = s.drop_first();
        assert(forall|k: int| 0 <= k < i - 1 ==> t[k] != sep);
        lemma_split_step(t, sep, i - 1);
        if i < s.len() {
            assert(t.take(i - 1) =~= s.take(i).drop_first());
            assert(t.skip(i) =~= s.skip(i + 1));
            let rest = split_on(t, sep);
            assert(rest == seq![t.take(i - 1)] + split_on(t.skip(i), sep));
            assert(rest.len() > 0);
            assert(rest[0] == t.take(i - 1));
            assert(seq![s[0]] + rest[0] =~= s.take(i));
            assert(rest.drop_first() =~= split_on(s.skip(i + 1), sep));
            assert(split_on(s, sep) =~= seq![s.take(i)] + split_on(s.skip(i + 1), sep));
        } else {
            if t.len() == 0 {
                assert(seq![s[0]] =~= s);
                assert(split_on(t, sep) =~= Seq::<Seq<u8>>::empty());
                assert(split_on(s, sep) =~~= seq![s]);
            } else {
                let rest = split_on(t, sep);
                assert(rest == seq![t]);
                assert(seq![s[0]] + t =~= s);
                assert(rest.drop_first() =~= Seq::<Seq<u8>>::empty());
                assert(split_on(s, sep) =~= seq![s]);
            }
        }
    }
}

/// First position of `sep` in `data[from..to]`, or `to` if it does not
/// occur there.
pub fn find_in(data: &Vec<u8>, from: usize, to: usize, sep: u8) -> (e: usize)
    requires
        from <= to <= data@.len(),
    ensures
        from <= e <= to,
        forall|k: int| from <= k < e ==> data@[k] != sep,
        e < to ==> data@[e as int] == sep,
{
    let mut i: usize = from;
    while i < to
        invariant
            from <= i <= to <= data@.len(),
            forall|k: int| from <= k < i ==> data@[k] != sep,
        decreases to - i,
    {
        if data[i] == sep {
            return i;
        }
        i = i + 1;
    }
    i
}

/// A copy of `data[from..to]`.
pub fn copy_bytes(data: &Vec<u8>, from: usize, to: usize) -> (r: Vec<u8>)
    requires
        from <= to <= data@.len(),
    ensures
        r@ == data@.subrange(from as int, to as int),
{
    let mut r: Vec<u8> = Vec::new();
    let mut i: usize = from;
    while i < to
        invariant
            from <= i <= to <= data@.len(),
            r@.len() == i - from,
            forall|k: int| 0 <= k < r@.len() ==> r@[k] == data@[from + k],
        decreases to - i,
    {
        r.push(data[i]);
        i = i + 1;
    }
    proof {
        assert(r@ =~= data@.subrange(from as int, to as int));
    }
    r
}

/// Intern each component of one record in turn: the table after, and the
/// record's ids.
pub open spec fn intern_comps(v: Seq<Seq<char>>, comps: Seq<Seq<u8>>) -> Result<
    (Seq<Seq<char>>, Seq<u32>),
    LoadError,
>
    decreases comps.len(),
{
    if comps.len() == 0 {
        Ok((v, Seq::empty()))
    } else {
        match utf8_decode(comps[0]) {
            Option::None => Err(LoadError::BadUtf8),
            Option::Some(t) => {
                if !table_has(v, t) && v.len() >= u32::MAX {
                    Err(LoadError::TableFull)
                } else {
                    match intern_comps(intern_view(v, t), comps.drop_first()) {
                        Ok(p) => Ok((p.0, seq![intern_id(v, t) as u32] + p.1)),
                        Err(e) => Err(e),
                    }
                }
            },
        }
    }
}

/// Intern every record in turn: the table after, and the entries.
pub open spec fn intern_records(v: Seq<Seq<char>>, recs: Seq<Seq<u8>>) -> Result<
    (Seq<Seq<char>>, Seq<Seq<u32>>),
    LoadError,
>
    decreases recs.len(),
{
    if recs.len() == 0 {
        Ok((v, Seq::empty()))
    } else {
        match intern_comps(v, split_on(recs[0], SLASH)) {
            Ok(p) => match intern_records(p.0, recs.drop_first()) {
                Ok(q) => Ok((q.0, seq![p.1] + q.1)),
                Err(e) => Err(e),
            },
            Err(e) => Err(e),
        }
    }
}

/// What the text encoding means: the table (above the reserved placeholder)
/// and the raw entries, in input order.
pub open spec fn text_meaning(data: Seq<u8>) -> Result<
    (Seq<Seq<char>>, Seq<Seq<u32>>),
    LoadError,
> {
    intern_records(seq![Seq::<char>::empty()], split_on(data, NUL))
}

/// Intern the components of the record held in `data[from..to]`.
fn parse_record_bytes(data: &Vec<u8>, from: usize, to: usize, table: &mut StringTable) -> (r:
    Result<Vec<u32>, LoadError>)
    requires
        from <= to <= data@.len(),
        old(table).wf(),
    ensures
        match r {
            Ok(ids) => {
                &&& intern_comps(old(table)@, split_on(data@.subrange(from as int, to as int), SLASH))
                    == Ok::<_, LoadError>((final(table)@, ids@))
                &&& final(table).wf()
                &&& entry_ids_valid(ids@, final(table)@.len() as int)
                &&& old(table)@.len() <= final(table)@.len()
            },
            Err(e) => intern_comps(
                old(table)@,
                split_on(data@.subrange(from as int, to as int), SLASH),
            ) == Err::<(Seq<Seq<char>>, Seq<u32>), LoadError>(e),
        },
{
    let ghost v0 = table@;
    let ghost comps_full = split_on(data@.subrange(from as int, to as int), SLASH);
    let mut ids: Vec<u32> = Vec::new();
    let mut cpos: usize = from;
    proof {
        assert(data@.subrange(cpos as int, to as int) =~= data@.subrange(
            from as int,
            to as int,
        ));
    }
    while cpos < to
        invariant
            v0 == old(table)@,
            comps_full == split_on(data@.subrange(from as int, to as int), SLASH),
            from <= cpos,
            cpos <= to + 1,
            to <= data@.len(),
            table.wf(),
            v0.len() <= table@.len(),
            entry_ids_valid(ids@, table@.len() as int),
            ({
                let rem = if cpos <= to {
                    split_on(data@.subrange(cpos as int, to as int), SLASH)
                } else {
                    Seq::<Seq<u8>>::empty()
                };
                intern_comps(v0, comps_full) == (match intern_comps(table@, rem) {
                    Ok(p) => Ok::<_, LoadError>((p.0, ids@ + p.1)),
                    Err(e) => Err::<(Seq<Seq<char>>, Seq<u32>), LoadError>(e),
                })
            }),
        decreases to + 1 - cpos,
    {
        let ghost v_here = table@;
        let ghost ids_head = ids@;
        let ghost region = data@.subrange(cpos as int, to as int);
        let ghost rem = split_on(region, SLASH);
        let cend = find_in(data, cpos, to, SLASH);
        proof {
            assert(forall|k: int| 0 <= k < cend - cpos ==> region[k] != SLASH);
            if cend < to {
                assert(region[cend - cpos] == SLASH);
            }
            lemma_split_step(region, SLASH, cend - cpos);
            assert(region.take(cend - cpos) =~= data@.subrange(cpos as int, cend as int));
            if cend < to {
                assert(region.skip(cend - cpos + 1) =~= data@.subrange(cend + 1, to as int));
            }
            assert(rem.len() > 0);
            assert(rem[0] == data@.subrange(cpos as int, cend as int));
        }
        let comp = copy_bytes(data, cpos, cend);
        match bytes_to_string(comp) {
            Option::None => {
                proof {
                    assert(intern_comps(table@, rem) == Err::<
                        (Seq<Seq<char>>, Seq<u32>),
                        LoadError,
                    >(LoadError::BadUtf8));
                }
                return Err(LoadError::BadUtf8);
            },
            Option::Some(text) => {
                let ghost t = text@;
                match table.lookup(text.as_str()) {
                    Option::Some(id) => {
                        proof {
                            assert(intern_view(v_here, t) == table@);
                        }
                        ids.push(id);
                    },
                    Option::None => {
                        if table.len() >= u32::MAX as usize {
                            proof {
                                assert(intern_comps(table@, rem) == Err::<
                                    (Seq<Seq<char>>, Seq<u32>),
                                    LoadError,
                                >(LoadError::TableFull));
                            }
                            return Err(LoadError::TableFull);
                        }
                        let id = table.intern(text);
                        ids.push(id);
                    },
                }
                cpos = if cend < to {
                    cend + 1
                } else {
                    to
                };
                proof {
                    let rem_new = split_on(data@.subrange(cpos as int, to as int), SLASH);
                    assert(rem.drop_first() =~~= rem_new);
                    assert(ids@ =~= ids_head.push(intern_id(v_here, t) as u32));
                    if intern_comps(table@, rem_new) is Ok {
                        let q = intern_comps(table@, rem_new)->Ok_0;
                        assert(intern_comps(v_here, rem) == Ok::<_, LoadError>((
                            q.0,
                            seq![intern_id(v_here, t) as u32] + q.1,
                        )));
                        assert(ids_head + (seq![intern_id(v_here, t) as u32] + q.1) =~= ids@
                            + q.1);
                        assert(intern_comps(v0, comps_full) == Ok::<_, LoadError>((
                            q.0,
                            ids_head + (seq![intern_id(v_here, t) as u32] + q.1),
                        )));
                        assert(intern_comps(v0, comps_full) == Ok::<_, LoadError>((
                            q.0,
                            ids@ + q.1,
                        )));
                    } else {
                        let e = intern_comps(table@, rem_new)->Err_0;
                        assert(intern_comps(v_here, rem) == Err::<
                            (Seq<Seq<char>>, Seq<u32>),
                            LoadError,
                        >(e));
                        assert(intern_comps(v0, comps_full) == Err::<
                            (Seq<Seq<char>>, Seq<u32>),
                            LoadError,
                        >(e));
                    }
                }
            },
        }
    }
    proof {
        if cpos <= to {
            assert(data@.subrange(cpos as int, to as int).len() == 0);
            assert(split_on(data@.subrange(cpos as int, to as int), SLASH)
                =~= Seq::<Seq<u8>>::empty());
        }
        assert(intern_comps(table@, Seq::<Seq<u8>>::empty()) == Ok::<_, LoadError>((
            table@,
            Seq::<u32>::empty(),
        )));
        assert(ids@ + Seq::<u32>::empty() =~= ids@);
    }
    Ok(ids)
}

/// Load the text encoding: NUL-separated records of `/`-separated
/// components, interned in order of appearance, then sorted into a store.
pub fn load_from_text(data: &Vec<u8>) -> (r: Result<Files, LoadError>)
    ensures
        match r {
            Ok(files) => {
                &&& text_meaning(data@) is Ok
                &&& ({
                    let (tv, raw) = text_meaning(data@)->Ok_0;
                    &&& files.wf()
                    &&& files.strings@ == tv
                    &&& files.files@.len() == raw.len()
                    &&& entry_views(files.files@).to_multiset() == raw.to_multiset()
                    &&& entry_views(files.files_rev@).to_multiset() == raw.map_values(
                        |e: Seq<u32>| e.reverse(),
                    ).to_multiset()
                })
            },
            Err(e) => text_meaning(data@) == Err::<(Seq<Seq<char>>, Seq<Seq<u32>>), LoadError>(e),
        },
{
    let mut table = StringTable::new();
    let ghost v0 = table@;
    proof {
        table.lemma_wf_bounds();
        assert(v0 =~= seq![Seq::<char>::empty()]);
    }
    let ghost recs_full = split_on(data@, NUL);
    let mut entries: Vec<Vec<u32>> = Vec::new();
    let mut pos: usize = 0;
    let n = data.len();
    proof {
        assert(data@.subrange(0, n as int) =~= data@);
    }
    while pos < n
        invariant
            v0 == seq![Seq::<char>::empty()],
            recs_full == split_on(data@, NUL),
            n == data@.len(),
            pos <= n + 1,
            table.wf(),
            ids_valid(entry_views(entries@), table@.len() as int),
            ({
                let rem = if pos <= n {
                    split_on(data@.subrange(pos as int, n as int), NUL)
                } else {
                    Seq::<Seq<u8>>::empty()
                };
                intern_records(v0, recs_full) == (match intern_records(table@, rem) {
                    Ok(q) => Ok::<_, LoadError>((q.0, entry_views(entries@) + q.1)),
                    Err(e) => Err::<(Seq<Seq<char>>, Seq<Seq<u32>>), LoadError>(e),
                })
            }),
        decreases n + 1 - pos,
    {
        let ghost v_here = table@;
        let ghost done_head = entry_views(entries@);
        let ghost region = data@.subrange(pos as int, n as int);
        let ghost rem = split_on(region, NUL);
        let end = find_in(data, pos, n, NUL);
        proof {
            assert(forall|k: int| 0 <= k < end - pos ==> region[k] != NUL);
            if end < n {
                assert(region[end - pos] == NUL);
            }
            lemma_split_step(region, NUL, end - pos);
            assert(region.take(end - pos) =~= data@.subrange(pos as int, end as int));
            if end < n {
                assert(region.skip(end - pos + 1) =~= data@.subrange(end + 1, n as int));
            }
            assert(rem.len() > 0);
            assert(rem[0] == data@.subrange(pos as int, end as int));
        }
        match parse_record_bytes(data, pos, end, &mut table) {
            Err(e) => {
                proof {
                    assert(intern_records(v_here, rem) == Err::<
                        (Seq<Seq<char>>, Seq<Seq<u32>>),
                        LoadError,
                    >(e));
                }
                return Err(e);
            },
            Ok(ids) => {
                proof {
                    assert forall|i: int|
                        0 <= i < done_head.len() implies entry_ids_valid(
                        #[trigger] done_head[i],
                        table@.len() as int,
                    ) by {
                        assert(entry_ids_valid(done_head[i], v_here.len() as int));
                    }
                }
                entries.push(ids);
                pos = if end < n {
                    end + 1
                } else {
                    n
                };
                proof {
                    let rem_new = split_on(data@.subrange(pos as int, n as int), NUL);
                    if end == n {
                        assert(data@.subrange(pos as int, n as int).len() == 0);
                        assert(rem_new =~= Seq::<Seq<u8>>::empty());
                    }
                    assert(rem.drop_first() =~~= rem_new);
                    assert(entry_views(entries@) =~= done_head.push(entries@.last()@));
                    if intern_records(table@, rem_new) is Ok {
                        let q = intern_records(table@, rem_new)->Ok_0;
                        assert(intern_records(v_here, rem) == Ok::<_, LoadError>((
                            q.0,
                            seq![entries@.last()@] + q.1,
                        )));
                        assert(done_head + (seq![entries@.last()@] + q.1) =~= entry_views(
                            entries@,
                        ) + q.1);
                        assert(intern_records(v0, recs_full) == Ok::<_, LoadError>((
                            q.0,
                            entry_views(entries@) + q.1,
                        )));
                    } else {
                        let e = intern_records(table@, rem_new)->Err_0;
                        assert(intern_records(v_here, rem) == Err::<
                            (Seq<Seq<char>>, Seq<Seq<u32>>),
                            LoadError,
                        >(e));
                    }
                }
            },
        }
    }
    proof {
        if pos <= n {
            assert(data@.subrange(pos as int, n as int).len() == 0);
            assert(split_on(data@.subrange(pos as int, n as int), NUL)
                =~= Seq::<Seq<u8>>::empty());
        }
        assert(intern_records(table@, Seq::<Seq<u8>>::empty()) == Ok::<_, LoadError>((
            table@,
            Seq::<Seq<u32>>::empty(),
        )));
        assert(entry_views(entries@) + Seq::<Seq<u32>>::empty() =~= entry_views(entries@));
        assert(text_meaning(data@) == Ok::<_, LoadError>((table@, entry_views(entries@))));
    }
    let ghost raw = entry_views(entries@);
    let files = Files::new(table, entries);
    Ok(files)
}

/// The unsigned 32-bit value that four bytes hold in little-endian order.
pub open spec fn le_word(b0: u8, b1: u8, b2: u8, b3: u8) -> u32 {
    (b0 + 256 * (b1 as int) + 65536 * (b2 as int) + 16777216 * (b3 as int)) as u32
}

/// Read one little-endian 32-bit word.
pub fn read_le_word(b0: u8, b1: u8, b2: u8, b3: u8) -> (w: u32)
    ensures
        w == le_word(b0, b1, b2, b3),
{
    b0 as u32 + 256 * (b1 as u32) + 65536 * (b2 as u32) + 16777216 * (b3 as u32)
}

/// What the id stream means from some point on, with the current record's
/// ids accumulated in `cur`: records of nonzero ids below `n`, each ended
/// by a 0 word.
pub open spec fn parse_ids_from(data: Seq<u8>, cur: Seq<u32>, n: int) -> Result<
    Seq<Seq<u32>>,
    LoadError,
>
    decreases data.len(),
{
    if data.len() == 0 {
        if cur.len() == 0 {
            Ok(Seq::empty())
        } else {
            Err(LoadError::UnterminatedRecord)
        }
    } else if data.len() < 4 {
        Err(LoadError::TruncatedWord)
    } else {
        let w = le_word(data[0], data[1], data[2], data[3]);
        if w == 0 {
            match parse_ids_from(data.skip(4), Seq::empty(), n) {
                Ok(rest) => Ok(seq![cur] + rest),
                Err(e) => Err(e),
            }
        } else if w >= n {
            Err(LoadError::UnknownId)
        } else {
            parse_ids_from(data.skip(4), cur.push(w), n)
        }
    }
}

/// What the whole id stream means against a table of `n` ids.
pub open spec fn ids_meaning(data: Seq<u8>, n: int) -> Result<Seq<Seq<u32>>, LoadError> {
    parse_ids_from(data, Seq::empty(), n)
}

/// Parse the id stream against a table of `n_strings` ids.
pub fn parse_id_stream(data: &Vec<u8>, n_strings: usize) -> (r: Result<Vec<Vec<u32>>, LoadError>)
    ensures
        match r {
            Ok(entries) => {
                &&& ids_meaning(data@, n_strings as int) == Ok::<_, LoadError>(
                    entry_views(entries@),
                )
                &&& ids_valid(entry_views(entries@), n_strings as int)
            },
            Err(e) => ids_meaning(data@, n_strings as int) == Err::<Seq<Seq<u32>>, LoadError>(e),
        },
{
    let n = data.len();
    let mut entries: Vec<Vec<u32>> = Vec::new();
    let mut cur: Vec<u32> = Vec::new();
    let mut pos: usize = 0;
    proof {
        assert(data@.subrange(0, n as int) =~= data@);
    }
    while pos < n
        invariant
            n == data@.len(),
            pos <= n,
            ids_valid(entry_views(entries@), n_strings as int),
            entry_ids_valid(cur@, n_strings as int),
            ({
                let rest = parse_ids_from(
                    data@.subrange(pos as int, n as int),
                    cur@,
                    n_strings as int,
                );
                ids_meaning(data@, n_strings as int) == (match rest {
                    Ok(q) => Ok::<_, LoadError>(entry_views(entries@) + q),
                    Err(e) => Err::<Seq<Seq<u32>>, LoadError>(e),
                })
            }),
        decreases n - pos,
    {
        let ghost region = data@.subrange(pos as int, n as int);
        let ghost done_head = entry_views(entries@);
        let ghost cur_head = cur@;
        if n - pos < 4 {
            proof {
                assert(parse_ids_from(region, cur@, n_strings as int) == Err::<
                    Seq<Seq<u32>>,
                    LoadError,
                >(LoadError::TruncatedWord));
            }
            return Err(LoadError::TruncatedWord);
        }
        let w = read_le_word(data[pos], data[pos + 1], data[pos + 2], data[pos + 3]);
        proof {
            assert(region[0] == data@[pos as int]);
            assert(region[1] == data@[pos + 1int]);
            assert(region[2] == data@[pos + 2int]);
            assert(region[3] == data@[pos + 3int]);
            assert(region.skip(4) =~= data@.subrange(pos + 4int, n as int));
        }
        if w == 0 {
            entries.push(cur);
            cur = Vec::new();
            proof {
                assert(entry_views(entries@) =~= done_head.push(cur_head));
                let rest_new = parse_ids_from(
                    data@.subrange(pos + 4int, n as int),
                    Seq::<u32>::empty(),
                    n_strings as int,
                );
                if rest_new is Ok {
                    let q = rest_new->Ok_0;
                    assert(parse_ids_from(region, cur_head, n_strings as int)
                        == Ok::<_, LoadError>(seq![cur_head] + q));
                    assert(done_head + (seq![cur_head] + q) =~= entry_views(entries@) + q);
                }
            }
        } else {
            let fits = (w as u64) < (n_strings as u64);
            if !fits {
                proof {
                    assert(w >= n_strings as int);
                    assert(parse_ids_from(region, cur@, n_strings as int) == Err::<
                        Seq<Seq<u32>>,
                        LoadError,
                    >(LoadError::UnknownId));
                }
                return Err(LoadError::UnknownId);
            }
            cur.push(w);
            proof {
                assert(cur@ =~= cur_head.push(w));
            }
        }
        pos = pos + 4;
    }
    if cur.len() != 0 {
        proof {
            assert(data@.subrange(pos as int, n as int).len() == 0);
        }
        return Err(LoadError::UnterminatedRecord);
    }
    proof {
        assert(data@.subrange(pos as int, n as int).len() == 0);
        assert(parse_ids_from(data@.subrange(pos as int, n as int), cur@, n_strings as int)
            == Ok::<_, LoadError>(Seq::<Seq<u32>>::empty()));
        assert(entry_views(entries@) + Seq::<Seq<u32>>::empty() =~= entry_views(entries@));
    }
    Ok(entries)
}

/// A line with a trailing carriage return stripped.
pub open spec fn strip_cr(l: Seq<u8>) -> Seq<u8> {
    if l.len() > 0 && l.last() == CR {
        l.drop_last()
    } else {
        l
    }
}

/// Populate the table from the side file's lines, in order, each line one
/// new component: ids are dense and start at 1.
pub open spec fn fill_table(v: Seq<Seq<char>>, lines: Seq<Seq<u8>>) -> Result<
    Seq<Seq<char>>,
    LoadError,
>
    decreases lines.len(),
{
    if lines.len() == 0 {
        Ok(v)
    } else {
        match utf8_decode(strip_cr(lines[0])) {
            Option::None => Err(LoadError::BadUtf8),
            Option::Some(t) => {
                if table_has(v, t) {
                    Err(LoadError::DuplicateName)
                } else if v.len() >= u32::MAX {
                    Err(LoadError::TableFull)
                } else {
                    fill_table(v.push(t), lines.drop_first())
                }
            },
        }
    }
}

/// What the side file means: the string table it fills.
pub open spec fn table_meaning(data: Seq<u8>) -> Result<Seq<Seq<char>>, LoadError> {
    fill_table(seq![Seq::<char>::empty()], split_on(data, NEWLINE))
}

/// Load the binary encoding's string table from the side file's bytes.
pub fn load_table(data: &Vec<u8>) -> (r: Result<StringTable, LoadError>)
    ensures
        match r {
            Ok(table) => table_meaning(data@) == Ok::<_, LoadError>(table@) && table.wf(),
            Err(e) => table_meaning(data@) == Err::<Seq<Seq<char>>, LoadError>(e),
        },
{
    let mut table = StringTable::new();
    let ghost v0 = table@;
    proof {
        table.lemma_wf_bounds();
        assert(v0 =~= seq![Seq::<char>::empty()]);
    }
    let n = data.len();
    let mut pos: usize = 0;
    proof {
        assert(data@.subrange(0, n as int) =~= data@);
    }
    while pos < n
        invariant
            v0 == seq![Seq::<char>::empty()],
            n == data@.len(),
            pos <= n + 1,
            table.wf(),
            ({
                let rem = if pos <= n {
                    split_on(data@.subrange(pos as int, n as int), NEWLINE)
                } else {
                    Seq::<Seq<u8>>::empty()
                };
                table_meaning(data@) == fill_table(table@, rem)
            }),
        decreases n + 1 - pos,
    {
        let ghost v_here = table@;
        let ghost region = data@.subrange(pos as int, n as int);
        let ghost rem = split_on(region, NEWLINE);
        let end = find_in(data, pos, n, NEWLINE);
        proof {
            assert(forall|k: int| 0 <= k < end - pos ==> region[k] != NEWLINE);
            if end < n {
                assert(region[end - pos] == NEWLINE);
            }
            lemma_split_step(region, NEWLINE, end - pos);
            assert(region.take(end - pos) =~= data@.subrange(pos as int, end as int));
            if end < n {
                assert(region.skip(end - pos + 1) =~= data@.subrange(end + 1, n as int));
            }
            assert(rem.len() > 0);
            assert(rem[0] == data@.subrange(pos as int, end as int));
        }
        let lend: usize = if end > pos && data[end - 1] == CR {
            end - 1
        } else {
            end
        };
        proof {
            assert(strip_cr(rem[0]) =~= data@.subrange(pos as int, lend as int));
        }
        let line = copy_bytes(data, pos, lend);
        match bytes_to_string(line) {
            Option::None => {
                return Err(LoadError::BadUtf8);
            },
            Option::Some(text) => {
                match table.lookup(text.as_str()) {
                    Option::Some(_) => {
                        return Err(LoadError::DuplicateName);
                    },
                    Option::None => {
                        if table.len() >= u32::MAX as usize {
                            return Err(LoadError::TableFull);
                        }
                        let _ = table.intern(text);
                    },
                }
                pos = if end < n {
                    end + 1
                } else {
                    n
                };
                proof {
                    let rem_new = split_on(data@.subrange(pos as int, n as int), NEWLINE);
                    if end == n {
                        assert(data@.subrange(pos as int, n as int).len() == 0);
                        assert(rem_new =~= Seq::<Seq<u8>>::empty());
                    }
                    assert(rem.drop_first() =~~= rem_new);
                    assert(fill_table(v_here, rem) == fill_table(table@, rem_new));
                }
            },
        }
    }
    proof {
        if pos <= n {
            assert(data@.subrange(pos as int, n as int).len() == 0);
            assert(split_on(data@.subrange(pos as int, n as int), NEWLINE)
                =~= Seq::<Seq<u8>>::empty());
        }
    }
    Ok(table)
}

/// Load the binary encoding: the side file fills the string table, the main
/// stream holds each path as nonzero ids ended by a 0, and the entries are
/// sorted into a store.
pub fn load_from_binary(names_data: &Vec<u8>, ids_data: &Vec<u8>) -> (r: Result<Files, LoadError>)
    ensures
        match r {
            Ok(files) => {
                &&& table_meaning(names_data@) is Ok
                &&& ({
                    let tv = table_meaning(names_data@)->Ok_0;
                    &&& ids_meaning(ids_data@, tv.len() as int) is Ok
                    &&& ({
                        let raw = ids_meaning(ids_data@, tv.len() as int)->Ok_0;
                        &&& files.wf()
                        &&& files.strings@ == tv
                        &&& files.files@.len() == raw.len()
                        &&& entry_views(files.files@).to_multiset() == raw.to_multiset()
                        &&& entry_views(files.files_rev@).to_multiset() == raw.map_values(
                            |e: Seq<u32>| e.reverse(),
                        ).to_multiset()
                    })
                })
            },
            Err(e) => {
                ||| table_meaning(names_data@) == Err::<Seq<Seq<char>>, LoadError>(e)
                ||| (table_meaning(names_data@) is Ok && ids_meaning(
                    ids_data@,
                    table_meaning(names_data@)->Ok_0.len() as int,
                ) == Err::<Seq<Seq<u32>>, LoadError>(e))
            },
        },
{
    let table = match load_table(names_data) {
        Ok(t) => t,
        Err(e) => {
            return Err(e);
        },
    };
    let entries = match parse_id_stream(ids_data, table.len()) {
        Ok(v) => v,
        Err(e) => {
            return Err(e);
        },
    };
    let files = Files::new(table, entries);
    Ok(files)
}

} // verus!



