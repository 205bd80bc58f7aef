use vstd::prelude::*;

verus! {

/// A base-10 digit character.
pub open spec fn is_digit(c: char) -> bool {
    48 <= c as int <= 57
}

/// The value of a digit character.
pub open spec fn digit_val(c: char) -> int {
    c as int - 48
}

/// Every character of the sequence is a digit.
pub open spec fn is_digit_seq(s: Seq<char>) -> bool {
    forall|i: int| 0 <= i < s.len() ==> is_digit(#[trigger] s[i])
}

/// The non-negative integer a digit sequence denotes in base 10.
pub open spec fn dec_val(s: Seq<char>) -> int
    decreases s.len(),
{
    if s.len() == 0 {
        0
    } else {
        dec_val(s.drop_last()) * 10 + digit_val(s.last())
    }
}

/// The recognized tile-file extension, compared case-insensitively.
pub open spec fn ext_matches_adt(ext: Seq<char>) -> bool {
    &&& ext.len() == 3
    &&& (ext[0] == 'a' || ext[0] == 'A')
    &&& (ext[1] == 'd' || ext[1] == 'D')
    &&& (ext[2] == 't' || ext[2] == 'T')
}

/// The shape of a root tile filename: a non-empty continent token without
/// underscores, two non-empty all-digit coordinate tokens, and the recognized
/// extension after the final dot. Auxiliary files that append further
/// underscore-delimited suffixes to the same stem cannot take this shape.
pub open spec fn valid_decomposition(
    name: Seq<char>,
    tok: Seq<char>,
    xs: Seq<char>,
    ys: Seq<char>,
    ext: Seq<char>,
) -> bool {
    &&& name == tok + seq!['_'] + xs + seq!['_'] + ys + seq!['.'] + ext
    &&& tok.len() > 0
    &&& !tok.contains('_')
    &&& xs.len() > 0
    &&& is_digit_seq(xs)
    &&& ys.len() > 0
    &&& is_digit_seq(ys)
    &&& dec_val(xs) <= u32::MAX
    &&& dec_val(ys) <= u32::MAX
    &&& ext_matches_adt(ext)
}

/// A filename names the root tile (tok, x, y) exactly when it decomposes as
/// above with coordinate tokens denoting x and y.
pub open spec fn valid_root_name(name: Seq<char>, tok: Seq<char>, x: u32, y: u32) -> bool {
    exists|xs: Seq<char>, ys: Seq<char>, ext: Seq<char>|
        valid_decomposition(name, tok, xs, ys, ext) && x as int == dec_val(xs) && y as int
            == dec_val(ys)
}

/// Where each component of a valid decomposition stands in the filename.
proof fn lemma_decomposition_index(
    name: Seq<char>,
    tok: Seq<char>,
    xs: Seq<char>,
    ys: Seq<char>,
    ext: Seq<char>,
)
    requires
        valid_decomposition(name, tok, xs, ys, ext),
    ensures
        name.len() == tok.len() + xs.len() + ys.len() + 6,
        name.len() >= 9,
        forall|i: int| 0 <= i < tok.len() ==> name[i] == tok[i],
        name[tok.len() as int] == '_',
        forall|i: int| 0 <= i < xs.len() ==> name[tok.len() as int + 1 + i] == xs[i],
        name[tok.len() as int + 1 + xs.len() as int] == '_',
        forall|i: int| 0 <= i < ys.len() ==> name[tok.len() as int + 2 + xs.len() as int + i] == ys[i],
        name[name.len() as int - 4] == '.',
        forall|i: int| 0 <= i < 3 ==> name[name.len() as int - 3 + i] == ext[i],
{
    let whole = tok + seq!['_'] + xs + seq!['_'] + ys + seq!['.'] + ext;
    assert(name.len() == tok.len() + xs.len() + ys.len() + 6);
    assert forall|i: int| 0 <= i < tok.len() implies name[i] == tok[i] by {
        assert(whole[i] == tok[i]);
    }
    assert forall|i: int| 0 <= i < xs.len() implies name[tok.len() as int + 1 + i] == xs[i] by {
        assert(whole[tok.len() as int + 1 + i] == xs[i]);
    }
    assert forall|i: int| 0 <= i < ys.len() implies name[tok.len() as int + 2 + xs.len() as int + i]
        == ys[i] by {
        assert(whole[tok.len() as int + 2 + xs.len() as int + i] == ys[i]);
    }
    assert forall|i: int| 0 <= i < 3 implies name[name.len() as int - 3 + i] == ext[i] by {
        assert(whole[tok.len() as int + xs.len() as int + ys.len() as int + 3 + i] == ext[i]);
    }
    assert(whole[tok.len() as int] == '_');
    assert(whole[tok.len() as int + 1 + xs.len() as int] == '_');
    assert(whole[tok.len() as int + xs.len() as int + ys.len() as int + 2] == '.');
}

/// A filename decomposes as a root tile name in at most one way.
proof fn lemma_decomposition_unique(
    name: Seq<char>,
    t1: Seq<char>,
    xs1: Seq<char>,
    ys1: Seq<char>,
    e1: Seq<char>,
    t2: Seq<char>,
    xs2: Seq<char>,
    ys2: Seq<char>,
    e2: Seq<char>,
)
    requires
        valid_decomposition(name, t1, xs1, ys1, e1),
        valid_decomposition(name, t2, xs2, ys2, e2),
    ensures
        t1 == t2,
        xs1 == xs2,
        ys1 == ys2,
        e1 == e2,
{
    lemma_decomposition_index(name, t1, xs1, ys1, e1);
    lemma_decomposition_index(name, t2, xs2, ys2, e2);
    assert(t1.len() == t2.len()) by {
        if t1.len() < t2.len() {
            assert(name[t1.len() as int] == t2[t1.len() as int]);
            assert(t2.contains('_'));
        }
        if t2.len() < t1.len() {
            assert(name[t2.len() as int] == t1[t2.len() as int]);
            assert(t1.contains('_'));
        }
    }
    assert(t1 =~= t2);
    assert(xs1.len() == xs2.len()) by {
        if xs1.len() < xs2.len() {
            assert(name[t1.len() as int + 1 + xs1.len() as int] == xs2[xs1.len() as int]);
            assert(is_digit(xs2[xs1.len() as int]));
        }
        if xs2.len() < xs1.len() {
            assert(name[t1.len() as int + 1 + xs2.len() as int] == xs1[xs2.len() as int]);
            assert(is_digit(xs1[xs2.len() as int]));
        }
    }
    assert(xs1 =~= xs2);
    assert(ys1.len() == ys2.len());
    assert(ys1 =~= ys2);
    assert(e1 =~= e2);
}

proof fn lemma_dec_val_take_step(s: Seq<char>, i: int)
    requires
        0 <= i < s.len(),
    ensures
        dec_val(s.take(i + 1)) == dec_val(s.take(i)) * 10 + digit_val(s[i]),
{
    assert(s.take(i + 1).drop_last() =~= s.take(i));
    assert(s.take(i + 1).last() == s[i]);
}

proof fn lemma_dec_val_nonneg(s: Seq<char>)
    requires
        is_digit_seq(s),
    ensures
        dec_val(s) >= 0,
    decreases s.len(),
{
    if s.len() > 0 {
        assert(is_digit(s[s.len() - 1]));
        assert(is_digit_seq(s.drop_last())) by {
            assert forall|i: int| 0 <= i < s.drop_last().len() implies is_digit(
                #[trigger] s.drop_last()[i],
            ) by {
                assert(is_digit(s[i]));
            }
        }
        lemma_dec_val_nonneg(s.drop_last());
    }
}

/// Once a digit prefix already exceeds the 32-bit range, the whole token does.
proof fn lemma_dec_val_prefix_exceeds(s: Seq<char>, i: int)
    requires
        is_digit_seq(s),
        0 <= i <= s.len(),
        dec_val(s.take(i)) > u32::MAX,
    ensures
        dec_val(s) > u32::MAX,
    decreases s.len() - i,
{
    if i == s.len() {
        assert(s.take(i) =~= s);
    } else {
        lemma_dec_val_take_step(s, i);
        assert(is_digit(s[i]));
        lemma_dec_val_prefix_exceeds(s, i + 1);
    }
}

/// Scan knowledge of the two separators pins each component of a valid
/// decomposition to its subrange of the filename.
proof fn lemma_components_are_subranges(
    name: Seq<char>,
    tok: Seq<char>,
    xs: Seq<char>,
    ys: Seq<char>,
    ext: Seq<char>,
    p1: int,
    p2: int,
)
    requires
        valid_decomposition(name, tok, xs, ys, ext),
        0 <= p1 < p2 < name.len() - 4,
        name[p1] == '_',
        forall|i: int| 0 <= i < p1 ==> name[i] != '_',
        name[p2] == '_',
        forall|i: int| p1 < i < p2 ==> name[i] != '_',
    ensures
        p1 == tok.len(),
        p2 == p1 + 1 + xs.len(),
        tok == name.subrange(0, p1),
        xs == name.subrange(p1 + 1, p2),
        ys == name.subrange(p2 + 1, name.len() - 4),
        ext == name.subrange(name.len() - 3, name.len() as int),
{
    lemma_decomposition_index(name, tok, xs, ys, ext);
    assert(p1 == tok.len()) by {
        if tok.len() < p1 {
            assert(name[tok.len() as int] == '_');
        }
        if p1 < tok.len() {
            assert(name[p1] == tok[p1]);
            assert(tok.contains('_'));
        }
    }
    assert(p2 == p1 + 1 + xs.len()) by {
        let q2 = tok.len() as int + 1 + xs.len() as int;
        if p2 < q2 {
            assert(name[p2] == xs[p2 - p1 - 1]);
            assert(is_digit(xs[p2 - p1 - 1]));
        }
        if q2 < p2 {
            assert(name[q2] == '_');
        }
    }
    assert(tok =~= name.subrange(0, p1));
    assert(xs =~= name.subrange(p1 + 1, p2));
    assert(ys =~= name.subrange(p2 + 1, name.len() - 4)) by {
        assert forall|i: int| 0 <= i < ys.len() implies name.subrange(
            p2 + 1,
            name.len() - 4,
        )[i] == ys[i] by {
            assert(name[tok.len() as int + 2 + xs.len() as int + i] == ys[i]);
        }
    }
    assert(ext =~= name.subrange(name.len() - 3, name.len() as int)) by {
        assert forall|i: int| 0 <= i < 3 implies name.subrange(
            name.len() - 3,
            name.len() as int,
        )[i] == ext[i] by {
            assert(name[name.len() as int - 3 + i] == ext[i]);
        }
    }
}

/// Reads an all-digit token out of a character range of the name; `None` for
/// an empty range, a non-digit, or a value beyond the 32-bit range.
fn parse_u32_digits(name: &str, start: usize, end: usize) -> (r: Option<u32>)
    requires
        start <= end <= name@.len(),
    ensures
        r matches Some(v) ==> start < end && is_digit_seq(
            name@.subrange(start as int, end as int),
        ) && v as int == dec_val(name@.subrange(start as int, end as int)),
        r is None ==> start == end || !is_digit_seq(name@.subrange(start as int, end as int))
            || dec_val(name@.subrange(start as int, end as int)) > u32::MAX,
{
    if start == end {
        return None;
    }
    let ghost sub = name@.subrange(start as int, end as int);
    let mut val: u32 = 0;
    let mut i: usize = start;
    while i < end
        invariant
            start <= i <= end <= name@.len(),
            sub == name@.subrange(start as int, end as int),
            is_digit_seq(name@.subrange(start as int, i as int)),
            val as int == dec_val(name@.subrange(start as int, i as int)),
        decreases end - i,
    {
        let c = name.get_char(i);
        let u = c as u32;
        if u < 48 || u > 57 {
            proof {
                assert(sub[i - start] == name@[i as int]);
                assert(!is_digit(sub[i - start]));
            }
            return None;
        }
        let d = u - 48;
        let ghost prefix = name@.subrange(start as int, i as int);
        let ghost prefix2 = name@.subrange(start as int, i as int + 1);
        proof {
            assert(prefix2.drop_last() =~= prefix);
            assert(prefix2.last() == name@[i as int]);
            assert(dec_val(prefix2) == dec_val(prefix) * 10 + digit_val(name@[i as int]));
            assert forall|j: int| 0 <= j < prefix2.len() implies is_digit(
                #[trigger] prefix2[j],
            ) by {
                if j < prefix.len() {
                    assert(prefix2[j] == prefix[j]);
                } else {
                    assert(prefix2[j] == name@[i as int]);
                }
            }
        }
        if val > 429496729 || (val == 429496729 && d > 5) {
            proof {
                if is_digit_seq(sub) {
                    assert(sub.take(i - start + 1) =~= prefix2);
                    assert(dec_val(sub.take(i - start + 1)) > u32::MAX);
                    lemma_dec_val_prefix_exceeds(sub, i - start + 1);
                }
            }
            return None;
        }
        val = val * 10 + d;
        i += 1;
    }
    proof {
        assert(name@.subrange(start as int, i as int) =~= sub);
    }
    Some(val)
}

/// Derives a continent token and tile coordinates from a filename: `Some`
/// exactly for root tile names `<tok>_<x>_<y>.<ext>` whose extension matches
/// the tile-file extension case-insensitively, whose token is non-empty, and
/// whose coordinates are plain base-10 numbers in 32-bit range. Names with a
/// different segment count (auxiliary object, texture or level-of-detail
/// files), non-numeric coordinates or the wrong extension give `None`.
pub fn parse_root_adt_filename(name: &str) -> (r: Option<(String, u32, u32)>)
    ensures
        r matches Some(t) ==> valid_root_name(name@, t.0@, t.1, t.2),
        forall|tok: Seq<char>, x: u32, y: u32|
            valid_root_name(name@, tok, x, y) ==> r is Some && r.unwrap().0@ == tok
                && r.unwrap().1 == x && r.unwrap().2 == y,
{
    let n = name.unicode_len();
    if n < 9 {
        proof {
            assert forall|tok: Seq<char>, x: u32, y: u32| !valid_root_name(name@, tok, x, y) by {
                if valid_root_name(name@, tok, x, y) {
                    let (xs, ys, ext) = choose|xs: Seq<char>, ys: Seq<char>, ext: Seq<char>|
                        valid_decomposition(name@, tok, xs, ys, ext) && x as int == dec_val(xs)
                            && y as int == dec_val(ys);
                    lemma_decomposition_index(name@, tok, xs, ys, ext);
                }
            }
        }
        return None;
    }
    let dot = name.get_char(n - 4);
    let e0 = name.get_char(n - 3);
    let e1 = name.get_char(n - 2);
    let e2 = name.get_char(n - 1);
    let ext_ok = dot == '.' && (e0 == 'a' || e0 == 'A') && (e1 == 'd' || e1 == 'D') && (e2 == 't'
        || e2 == 'T');
    if !ext_ok {
        proof {
            assert forall|tok: Seq<char>, x: u32, y: u32| !valid_root_name(name@, tok, x, y) by {
                if valid_root_name(name@, tok, x, y) {
                    let (xs, ys, ext) = choose|xs: Seq<char>, ys: Seq<char>, ext: Seq<char>|
                        valid_decomposition(name@, tok, xs, ys, ext) && x as int == dec_val(xs)
                            && y as int == dec_val(ys);
                    lemma_decomposition_index(name@, tok, xs, ys, ext);
                    assert(name@[name@.len() - 3 + 0] == ext[0]);
                    assert(name@[name@.len() - 3 + 1] == ext[1]);
                    assert(name@[name@.len() - 3 + 2] == ext[2]);
                }
            }
        }
        return None;
    }
    let stem_end = n - 4;
    let mut p1: usize = 0;
    while p1 < stem_end && name.get_char(p1) != '_'
        invariant
            stem_end == name@.len() - 4,
            name@.len() >= 9,
            p1 <= stem_end,
            forall|i: int| 0 <= i < p1 ==> name@[i] != '_',
        decreases stem_end - p1,
    {
        p1 += 1;
    }
    if p1 == stem_end || p1 == 0 {
        proof {
            assert forall|tok: Seq<char>, x: u32, y: u32| !valid_root_name(name@, tok, x, y) by {
                if valid_root_name(name@, tok, x, y) {
                    let (xs, ys, ext) = choose|xs: Seq<char>, ys: Seq<char>, ext: Seq<char>|
                        valid_decomposition(name@, tok, xs, ys, ext) && x as int == dec_val(xs)
                            && y as int == dec_val(ys);
                    lemma_decomposition_index(name@, tok, xs, ys, ext);
                    if p1 == stem_end {
                        assert(tok.len() < stem_end);
                        assert(name@[tok.len() as int] == '_');
                    } else {
                        assert(name@[0] == tok[0]);
                        assert(name@[p1 as int] == '_');
                        assert(tok.contains('_'));
                    }
                }
            }
        }
        return None;
    }
    let mut p2: usize = p1 + 1;
    while p2 < stem_end && name.get_char(p2) != '_'
        invariant
            stem_end == name@.len() - 4,
            name@.len() >= 9,
            p1 < p2 <= stem_end,
            forall|i: int| p1 < i < p2 ==> name@[i] != '_',
        decreases stem_end - p2,
    {
        p2 += 1;
    }
    if p2 == stem_end {
        proof {
            assert forall|tok: Seq<char>, x: u32, y: u32| !valid_root_name(name@, tok, x, y) by {
                if valid_root_name(name@, tok, x, y) {
                    let (xs, ys, ext) = choose|xs: Seq<char>, ys: Seq<char>, ext: Seq<char>|
                        valid_decomposition(name@, tok, xs, ys, ext) && x as int == dec_val(xs)
                            && y as int == dec_val(ys);
                    lemma_decomposition_index(name@, tok, xs, ys, ext);
                    assert(p1 == tok.len()) by {
                        if tok.len() < p1 {
                            assert(name@[tok.len() as int] == '_');
                        }
                        if p1 < tok.len() {
                            assert(name@[p1 as int] == tok[p1 as int]);
                            assert(tok.contains('_'));
                        }
                    }
                    let q2 = tok.len() as int + 1 + xs.len() as int;
                    assert(name@[q2] == '_');
                    assert(q2 < stem_end);
                }
            }
        }
        return None;
    }
    let mut p3: usize = p2 + 1;
    while p3 < stem_end
        invariant
            stem_end == name@.len() - 4,
            name@.len() >= 9,
            p2 < p3 <= stem_end,
            p1 < p2 < stem_end,
            name@[p1 as int] == '_',
            name@[p2 as int] == '_',
            forall|i: int| 0 <= i < p1 ==> name@[i] != '_',
            forall|i: int| p1 < i < p2 ==> name@[i] != '_',
            forall|i: int| p2 < i < p3 ==> name@[i] != '_',
        decreases stem_end - p3,
    {
        if name.get_char(p3) == '_' {
            proof {
                assert forall|tok: Seq<char>, x: u32, y: u32| !valid_root_name(
                    name@,
                    tok,
                    x,
                    y,
                ) by {
                    if valid_root_name(name@, tok, x, y) {
                        let (xs, ys, ext) = choose|xs: Seq<char>, ys: Seq<char>, ext: Seq<char>|
                            valid_decomposition(name@, tok, xs, ys, ext) && x as int == dec_val(xs)
                                && y as int == dec_val(ys);
                        lemma_components_are_subranges(
                            name@,
                            tok,
                            xs,
                            ys,
                            ext,
                            p1 as int,
                            p2 as int,
                        );
                        lemma_decomposition_index(name@, tok, xs, ys, ext);
                        assert(name@[p3 as int] == ys[p3 - p2 - 1]);
                        assert(is_digit(ys[p3 - p2 - 1]));
                    }
                }
            }
            return None;
        }
        p3 += 1;
    }
    let x_opt = parse_u32_digits(name, p1 + 1, p2);
    let y_opt = parse_u32_digits(name, p2 + 1, stem_end);
    let (x, y) = match (x_opt, y_opt) {
        (Some(x), Some(y)) => (x, y),
        _ => {
            proof {
                assert forall|tok: Seq<char>, x: u32, y: u32| !valid_root_name(
                    name@,
                    tok,
                    x,
                    y,
                ) by {
                    if valid_root_name(name@, tok, x, y) {
                        let (xs, ys, ext) = choose|xs: Seq<char>, ys: Seq<char>, ext: Seq<char>|
                            valid_decomposition(name@, tok, xs, ys, ext) && x as int == dec_val(xs)
                                && y as int == dec_val(ys);
                        lemma_components_are_subranges(
                            name@,
                            tok,
                            xs,
                            ys,
                            ext,
                            p1 as int,
                            p2 as int,
                        );
                        lemma_dec_val_nonneg(xs);
                        lemma_dec_val_nonneg(ys);
                    }
                }
            }
            return None;
        },
    };
    let tok_str = name.substring_char(0, p1);
    let token = String::from_str(tok_str);
    proof {
        let tok0 = name@.subrange(0, p1 as int);
        let xs0 = name@.subrange(p1 as int + 1, p2 as int);
        let ys0 = name@.subrange(p2 as int + 1, stem_end as int);
        let ext0 = name@.subrange(name@.len() - 3, name@.len() as int);
        assert(name@ =~= tok0 + seq!['_'] + xs0 + seq!['_'] + ys0 + seq!['.'] + ext0);
        assert(!tok0.contains('_')) by {
            if tok0.contains('_') {
                let i = choose|i: int| 0 <= i < tok0.len() && tok0[i] == '_';
                assert(name@[i] == '_');
            }
        }
        assert(valid_decomposition(name@, tok0, xs0, ys0, ext0));
        assert(valid_root_name(name@, tok0, x, y)) by {
            assert(valid_decomposition(name@, tok0, xs0, ys0, ext0) && x as int == dec_val(xs0)
                && y as int == dec_val(ys0));
        }
        assert forall|tok: Seq<char>, xo: u32, yo: u32| valid_root_name(
            name@,
            tok,
            xo,
            yo,
        ) implies tok == tok0 && xo == x && yo == y by {
            let (xs, ys, ext) = choose|xs: Seq<char>, ys: Seq<char>, ext: Seq<char>|
                valid_decomposition(name@, tok, xs, ys, ext) && xo as int == dec_val(xs)
                    && yo as int == dec_val(ys);
            lemma_decomposition_unique(name@, tok, xs, ys, ext, tok0, xs0, ys0, ext0);
        }
    }
    Some((token, x, y))
}

} // verus!
