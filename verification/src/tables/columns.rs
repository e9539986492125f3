//! The names of a table's columns.

use vstd::prelude::*;

use crate::number::{decimal, decimal_of};
use crate::pieces::{
    are_runs, is_run, join, joined, lemma_gaps_before_runs, lemma_join_front, lemma_runs,
    lemma_runs_front, lemma_runs_of_join, runs, runs_of, texts,
};
use crate::tables::grid::{grid_texts, place_text};
use crate::text::{
    ascii_lower, chars_of, copy_of, is_ascii_alnum, lead, lemma_lead, lower, lowered, push_all,
    same_text, trim, trim_start, trimmed, CharClass,
};

verus! {

/// The name of the column number `index` if nothing else names it.
pub open spec fn numbered_column(index: nat) -> Seq<char> {
    "col_"@ + decimal(index)
}

/// The name of the column number `index` if nothing else names it.
pub fn numbered_column_name(index: usize) -> (out: Vec<char>)
    ensures
        out@ == numbered_column(index as nat),
{
    let mut out = chars_of("col_");
    let digits = decimal_of(index);
    push_all(&mut out, &digits);
    out
}

/// The name that the heading `value` gives to the column number `index`: its runs of ASCII
/// letters and digits, in lower case, with underscores between them.
pub open spec fn column_key(value: Seq<char>, index: nat) -> Seq<char> {
    let key = lower(join(runs(value, CharClass::Alnum, CharClass::NonAlnum), seq!['_']));
    if key.len() == 0 {
        numbered_column(index)
    } else {
        key
    }
}

/// The name that the heading `value` gives to the column number `index`.
pub fn normalize_key(value: &[char], index: usize) -> (out: Vec<char>)
    ensures
        out@ == column_key(value@, index as nat),
{
    let parts = runs_of(value, CharClass::Alnum, CharClass::NonAlnum);
    let underscore: Vec<char> = vec!['_'];
    assert(underscore@ =~= seq!['_']);
    let key = joined(&parts, &underscore);
    if key.len() == 0 {
        assert(lower(key@).len() == 0);
        numbered_column_name(index)
    } else {
        lowered(&key)
    }
}

// ---- What a key is ----

/// Whether `c` is an ASCII digit or a small ASCII letter.
pub open spec fn is_key_letter(c: char) -> bool {
    'a' <= c <= 'z' || '0' <= c <= '9'
}

/// Whether `k` is a key: not empty, made of small ASCII letters, digits and underscores, with no
/// underscore at either end and no two of them together.
pub open spec fn is_key(k: Seq<char>) -> bool {
    &&& k.len() > 0
    &&& k[0] != '_'
    &&& k.last() != '_'
    &&& forall|i: int| 0 <= i < k.len() ==> is_key_letter(#[trigger] k[i]) || k[i] == '_'
    &&& forall|i: int, j: int|
        0 <= i && j == i + 1 && j < k.len() ==> #[trigger] k[i] != '_' || #[trigger] k[j] != '_'
}

/// The ASCII letters and digits of `s`, in lower case.
pub open spec fn key_letters(s: Seq<char>) -> Seq<char>
    decreases s.len(),
{
    if s.len() == 0 {
        Seq::empty()
    } else if is_ascii_alnum(s.last()) {
        key_letters(s.drop_last()).push(ascii_lower(s.last()))
    } else {
        key_letters(s.drop_last())
    }
}

proof fn lemma_key_letters_concat(a: Seq<char>, b: Seq<char>)
    ensures
        key_letters(a + b) == key_letters(a) + key_letters(b),
    decreases b.len(),
{
    if b.len() == 0 {
        assert(a + b =~= a);
        assert(key_letters(a) + key_letters(b) =~= key_letters(a));
    } else {
        assert((a + b).drop_last() =~= a + b.drop_last());
        lemma_key_letters_concat(a, b.drop_last());
        assert(key_letters(a + b) =~= key_letters(a) + key_letters(b));
    }
}

proof fn lemma_no_key_letters(s: Seq<char>)
    requires
        forall|j: int| 0 <= j < s.len() ==> CharClass::NonAlnum.has(#[trigger] s[j]),
    ensures
        key_letters(s) == Seq::<char>::empty(),
    decreases s.len(),
{
    if s.len() > 0 {
        assert(CharClass::NonAlnum.has(s[s.len() - 1]));
        assert forall|j: int| 0 <= j < s.drop_last().len() implies CharClass::NonAlnum.has(
            #[trigger] s.drop_last()[j],
        ) by {
            assert(s.drop_last()[j] == s[j]);
        }
        lemma_no_key_letters(s.drop_last());
    }
}

/// The letters and digits of `s` are those of its runs.
proof fn lemma_letters_of_runs(s: Seq<char>)
    ensures
        key_letters(join(runs(s, CharClass::Alnum, CharClass::NonAlnum), seq!['_']))
            == key_letters(s),
    decreases s.len(),
{
    let class = CharClass::Alnum;
    let gap = CharClass::NonAlnum;
    let sep = seq!['_'];
    let g = lead(s, gap) as int;
    let t = trim_start(s, gap);
    let n = lead(t, class) as int;
    let all = runs(s, class, gap);
    lemma_lead(s, gap);
    lemma_lead(t, class);
    assert(s.take(g) + t =~= s);
    lemma_key_letters_concat(s.take(g), t);
    lemma_no_key_letters(s.take(g));
    assert(key_letters(s) =~= key_letters(t));
    if n == 0 {
        if t.len() > 0 {
            assert(t[0] == s[g]);
        }
        assert(t.len() == 0);
    } else {
        let first = t.take(n);
        let behind = t.skip(n);
        let rest = runs(behind, class, gap);
        assert(first + behind =~= t);
        lemma_key_letters_concat(first, behind);
        lemma_letters_of_runs(behind);
        assert(all.skip(1) =~= rest);
        if rest.len() == 0 {
            assert(all =~= seq![first]);
            assert(key_letters(first) + key_letters(behind) =~= key_letters(first));
        } else {
            lemma_join_front(all, sep);
            let tail = join(rest, sep);
            lemma_key_letters_concat(first + sep, tail);
            lemma_key_letters_concat(first, sep);
            lemma_no_key_letters(sep);
            assert(key_letters(first + sep) =~= key_letters(first));
        }
    }
}

/// Whether all of `parts` are runs of small letters and digits.
spec fn are_key_parts(parts: Seq<Seq<char>>) -> bool {
    forall|i: int, j: int|
        0 <= i < parts.len() && 0 <= j < parts[i].len() ==> is_key_letter(#[trigger] parts[i][j])
}

/// Parts with underscores between them.
proof fn lemma_key_of_parts(parts: Seq<Seq<char>>)
    requires
        parts.len() > 0,
        are_runs(parts, CharClass::Alnum),
        are_key_parts(parts),
    ensures
        is_key(join(parts, seq!['_'])),
        lower(join(parts, seq!['_'])) == join(parts, seq!['_']),
    decreases parts.len(),
{
    let key = join(parts, seq!['_']);
    let part = parts.last();
    assert(is_run(parts[parts.len() - 1], CharClass::Alnum));
    assert forall|j: int| 0 <= j < part.len() implies is_key_letter(#[trigger] part[j]) by {
        assert(is_key_letter(parts[parts.len() - 1][j]));
    }
    if parts.len() == 1 {
        assert(key == part);
    } else {
        let init = parts.drop_last();
        assert forall|i: int| 0 <= i < init.len() implies is_run(
            #[trigger] init[i],
            CharClass::Alnum,
        ) by {
            assert(init[i] == parts[i]);
        }
        assert forall|i: int, j: int| 0 <= i < init.len() && 0 <= j < init[i].len() implies
            is_key_letter(#[trigger] init[i][j]) by {
            assert(init[i][j] == parts[i][j]);
        }
        lemma_key_of_parts(init);
        let before = join(init, seq!['_']);
        assert(key =~= before + seq!['_'] + part);
        let n = before.len() as int;
        assert forall|i: int| 0 <= i < key.len() implies is_key_letter(#[trigger] key[i]) || key[i]
            == '_' by {
            if i < n {
                assert(key[i] == before[i]);
            } else if i > n {
                assert(key[i] == part[i - n - 1]);
            }
        }
        assert forall|i: int, j: int| 0 <= i && j == i + 1 && j < key.len() implies
            #[trigger] key[i] != '_' || #[trigger] key[j] != '_' by {
            if j < n {
                assert(key[i] == before[i] && key[j] == before[j]);
            } else if j == n {
                assert(key[i] == before.last());
            } else {
                assert(key[j] == part[j - n - 1]);
            }
        }
        assert(key[0] == before[0]);
        assert(key.last() == part.last());
    }
    assert(lower(key) =~= key) by {
        assert forall|i: int| 0 <= i < key.len() implies ascii_lower(#[trigger] key[i])
            == key[i] by {
            assert(is_key_letter(key[i]) || key[i] == '_');
        }
    }
}

/// The parts in lower case, joined.
proof fn lemma_lower_join(parts: Seq<Seq<char>>)
    ensures
        lower(join(parts, seq!['_'])) == join(
            Seq::new(parts.len(), |i: int| lower(parts[i])),
            seq!['_'],
        ),
    decreases parts.len(),
{
    let low = Seq::new(parts.len(), |i: int| lower(parts[i]));
    let sep = seq!['_'];
    if parts.len() == 0 {
        assert(lower(join(parts, sep)) =~= join(low, sep));
    } else if parts.len() > 1 {
        lemma_lower_join(parts.drop_last());
        assert(low.drop_last() =~= Seq::new(
            parts.drop_last().len(),
            |i: int| lower(parts.drop_last()[i]),
        ));
        assert(lower(join(parts.drop_last(), sep) + sep + parts.last()) =~= lower(
            join(parts.drop_last(), sep),
        ) + sep + lower(parts.last()));
    }
}

proof fn lemma_decimal_is_key_part(n: nat)
    ensures
        is_run(decimal(n), CharClass::Alnum),
        forall|j: int| 0 <= j < decimal(n).len() ==> is_key_letter(#[trigger] decimal(n)[j]),
    decreases n,
{
    let d = decimal(n);
    if n >= 10 {
        lemma_decimal_is_key_part(n / 10);
        assert forall|j: int| 0 <= j < d.len() implies is_key_letter(#[trigger] d[j]) by {
            if j < d.len() - 1 {
                assert(d[j] == decimal(n / 10)[j]);
            }
        }
    }
    assert forall|j: int| 0 <= j < d.len() implies CharClass::Alnum.has(#[trigger] d[j]) by {
        assert(is_key_letter(d[j]));
    }
}

/// The parts that a key is made of.
proof fn lemma_key_parts(value: Seq<char>, index: nat) -> (parts: Seq<Seq<char>>)
    ensures
        parts.len() > 0,
        are_runs(parts, CharClass::Alnum),
        are_key_parts(parts),
        column_key(value, index) == join(parts, seq!['_']),
{
    let found = runs(value, CharClass::Alnum, CharClass::NonAlnum);
    lemma_runs(value, CharClass::Alnum, CharClass::NonAlnum);
    if found.len() == 0 {
        let parts = seq!["col"@, decimal(index)];
        reveal_strlit("col");
        reveal_strlit("col_");
        lemma_decimal_is_key_part(index);
        assert(is_run("col"@, CharClass::Alnum));
        assert forall|i: int, j: int| 0 <= i < parts.len() && 0 <= j < parts[i].len() implies
            is_key_letter(#[trigger] parts[i][j]) by {
            if i == 1 {
                assert(is_key_letter(decimal(index)[j]));
            }
        }
        assert(parts.drop_last() =~= seq!["col"@]);
        assert(join(seq!["col"@], seq!['_']) == "col"@);
        assert(join(parts, seq!['_']) == "col"@ + seq!['_'] + decimal(index));
        assert("col"@ + seq!['_'] =~= "col_"@);
        parts
    } else {
        let parts = Seq::new(found.len(), |i: int| lower(found[i]));
        lemma_lower_join(found);
        assert forall|i: int, j: int| 0 <= i < parts.len() && 0 <= j < parts[i].len() implies
            is_key_letter(#[trigger] parts[i][j]) && CharClass::Alnum.has(parts[i][j]) by {
            assert(is_run(found[i], CharClass::Alnum));
            assert(CharClass::Alnum.has(found[i][j]));
        }
        assert forall|i: int| 0 <= i < parts.len() implies is_run(
            #[trigger] parts[i],
            CharClass::Alnum,
        ) by {
            assert(is_run(found[i], CharClass::Alnum));
            assert forall|j: int| 0 <= j < parts[i].len() implies CharClass::Alnum.has(
                #[trigger] parts[i][j],
            ) by {
                assert(is_key_letter(parts[i][j]));
            }
        }
        lemma_key_of_parts(parts);
        parts
    }
}

proof fn lemma_key_letters_lower(s: Seq<char>)
    ensures
        key_letters(lower(s)) == key_letters(s),
    decreases s.len(),
{
    if s.len() > 0 {
        assert(lower(s).drop_last() =~= lower(s.drop_last()));
        lemma_key_letters_lower(s.drop_last());
        assert(lower(s).last() == ascii_lower(s.last()));
    }
}

/// A heading gives a key. It keeps the letters and digits of the heading in their order, if there
/// are any, and taken as a heading it gives itself.
pub proof fn law_heading_gives_a_key(value: Seq<char>, index: nat, other: nat)
    ensures
        is_key(column_key(value, index)),
        key_letters(value).len() > 0 ==> key_letters(column_key(value, index)) == key_letters(
            value,
        ),
        key_letters(value).len() == 0 ==> column_key(value, index) == numbered_column(index),
        column_key(column_key(value, index), other) == column_key(value, index),
{
    let key = column_key(value, index);
    let parts = lemma_key_parts(value, index);
    lemma_key_of_parts(parts);
    lemma_runs_of_join(parts, '_', CharClass::Alnum, CharClass::NonAlnum);
    let found = runs(value, CharClass::Alnum, CharClass::NonAlnum);
    let raw = join(found, seq!['_']);
    lemma_letters_of_runs(value);
    lemma_key_letters_lower(raw);
    if raw.len() > 0 {
        lemma_runs(value, CharClass::Alnum, CharClass::NonAlnum);
        assert(found.len() > 0);
        let w = found[found.len() - 1];
        assert(is_run(w, CharClass::Alnum));
        assert(CharClass::Alnum.has(w[w.len() - 1]));
        assert(raw.last() == w.last());
        assert(key_letters(raw).len() > 0);
    }
}

/// How many of the first `n` keys equal the key `i`.
pub open spec fn earlier_equal(keys: Seq<Seq<char>>, i: int, n: int) -> nat
    decreases n,
{
    if n <= 0 {
        0
    } else {
        earlier_equal(keys, i, n - 1) + (if keys[n - 1] == keys[i] {
            1nat
        } else {
            0
        })
    }
}

/// The keys, each with its number among its equals behind it, except the first of them.
pub open spec fn disambiguate(keys: Seq<Seq<char>>) -> Seq<Seq<char>> {
    Seq::new(
        keys.len(),
        |i: int|
            if earlier_equal(keys, i, i) == 0 {
                keys[i]
            } else {
                keys[i] + seq!['_'] + decimal(earlier_equal(keys, i, i) + 1)
            },
    )
}

proof fn lemma_earlier_bound(keys: Seq<Seq<char>>, i: int, n: int)
    requires
        0 <= n,
    ensures
        earlier_equal(keys, i, n) <= n,
    decreases n,
{
    if n > 0 {
        lemma_earlier_bound(keys, i, n - 1);
    }
}

proof fn lemma_earlier_same(keys: Seq<Seq<char>>, i: int, j: int, n: int)
    requires
        keys[i] == keys[j],
    ensures
        earlier_equal(keys, i, n) == earlier_equal(keys, j, n),
    decreases n,
{
    if n > 0 {
        lemma_earlier_same(keys, i, j, n - 1);
    }
}

/// The keys, each with its number among its equals behind it, except the first of them.
pub fn disambiguate_keys(keys: &Vec<Vec<char>>) -> (out: Vec<Vec<char>>)
    ensures
        texts(out@) == disambiguate(texts(keys@)),
{
    let ghost all = texts(keys@);
    let mut out: Vec<Vec<char>> = Vec::new();
    let mut counts: Vec<usize> = Vec::new();
    let mut i: usize = 0;
    while i < keys.len()
        invariant
            i <= keys@.len(),
            all == texts(keys@),
            out@.len() == i,
            counts@.len() == i,
            forall|k: int|
                0 <= k < i ==> (#[trigger] out@[k])@ == disambiguate(all)[k],
            forall|k: int|
                0 <= k < i ==> #[trigger] counts@[k] == earlier_equal(all, k, k) && counts@[k] <= k,
        decreases keys.len() - i,
    {
        let mut count: usize = 0;
        let mut j: usize = i;
        let mut found = false;
        while j > 0 && !found
            invariant
                j <= i < keys@.len(),
                all == texts(keys@),
                counts@.len() == i,
                forall|k: int|
                    0 <= k < i ==> #[trigger] counts@[k] == earlier_equal(all, k, k) && counts@[k]
                        <= k,
                found ==> count == earlier_equal(all, i as int, i as int),
                !found ==> earlier_equal(all, i as int, j as int) == earlier_equal(
                    all,
                    i as int,
                    i as int,
                ),
                !found ==> count == 0,
            decreases j,
        {
            j -= 1;
            if same_text(&keys[j], &keys[i]) {
                count = counts[j] + 1;
                found = true;
                proof {
                    assert(all[j as int] == all[i as int]);
                    lemma_earlier_same(all, i as int, j as int, j as int);
                }
            } else {
                assert(all[j as int] != all[i as int]);
            }
        }
        proof {
            lemma_earlier_bound(all, i as int, i as int);
        }
        let mut key = copy_of(&keys[i]);
        if count > 0 {
            key.push('_');
            let digits = decimal_of(count + 1);
            push_all(&mut key, &digits);
            assert(key@ =~= all[i as int] + seq!['_'] + digits@);
        }
        out.push(key);
        counts.push(count);
        i += 1;
    }
    assert(texts(out@) =~= disambiguate(all));
    out
}

/// The text of a place, without white space at its ends; the empty text if none covers it.
pub open spec fn heading_text(place: Option<Seq<char>>) -> Seq<char> {
    match place {
        Some(text) => trim(text, CharClass::Space),
        None => Seq::empty(),
    }
}

/// The headings of the column `col` in the first `n` rows, from top to bottom: empty ones are
/// left out, and so is one that repeats the one before it.
pub open spec fn headings(rows: Seq<Seq<Option<Seq<char>>>>, col: int, n: int) -> Seq<Seq<char>>
    decreases n,
{
    if n <= 0 {
        Seq::empty()
    } else {
        let above = headings(rows, col, n - 1);
        let text = heading_text(rows[n - 1][col]);
        if text.len() == 0 || (above.len() > 0 && above.last() == text) {
            above
        } else {
            above.push(text)
        }
    }
}

/// How many columns `rows` have: as many as the first row has places.
pub open spec fn column_count(rows: Seq<Seq<Option<Seq<char>>>>) -> nat {
    if rows.len() == 0 {
        0
    } else {
        rows[0].len()
    }
}

/// The names of the columns whose headings stand in the first `header_rows` rows, or in all if
/// there are fewer.
pub open spec fn column_names(rows: Seq<Seq<Option<Seq<char>>>>, header_rows: nat) -> Seq<
    Seq<char>,
> {
    let n = if header_rows < rows.len() {
        header_rows
    } else {
        rows.len()
    };
    disambiguate(
        Seq::new(
            column_count(rows),
            |col: int| column_key(join(headings(rows, col, n as int), " / "@), (col + 1) as nat),
        ),
    )
}

/// The names of the columns whose headings stand in the first `header_rows` rows, or in all if
/// there are fewer. No row with headings is shorter than the first.
pub fn build_columns(grid: &Vec<Vec<Option<Vec<char>>>>, header_rows: usize) -> (out: Vec<
    Vec<char>,
>)
    requires
        forall|i: int|
            0 <= i < header_rows && i < grid@.len() ==> (#[trigger] grid@[i])@.len()
                >= grid@[0]@.len(),
    ensures
        texts(out@) == column_names(grid_texts(grid@), header_rows as nat),
{
    let ghost rows = grid_texts(grid@);
    let width: usize = if grid.len() == 0 {
        0
    } else {
        grid[0].len()
    };
    let header_rows = if header_rows < grid.len() {
        header_rows
    } else {
        grid.len()
    };
    assert(grid@.len() > 0 ==> rows[0].len() == grid@[0]@.len());
    let slash = chars_of(" / ");
    let mut keys: Vec<Vec<char>> = Vec::new();
    let mut col: usize = 0;
    while col < width
        invariant
            col <= width,
            header_rows <= grid@.len(),
            rows == grid_texts(grid@),
            slash@ == " / "@,
            forall|i: int| 0 <= i < header_rows ==> (#[trigger] grid@[i])@.len() >= width,
            keys@.len() == col,
            forall|c: int|
                0 <= c < col ==> (#[trigger] keys@[c])@ == column_key(
                    join(headings(rows, c, header_rows as int), " / "@),
                    (c + 1) as nat,
                ),
        decreases width - col,
    {
        let mut parts: Vec<Vec<char>> = Vec::new();
        let mut row: usize = 0;
        assert(texts(parts@) =~= Seq::empty());
        while row < header_rows
            invariant
                row <= header_rows <= grid@.len(),
                col < width,
                rows == grid_texts(grid@),
                forall|i: int| 0 <= i < header_rows ==> (#[trigger] grid@[i])@.len() >= width,
                texts(parts@) == headings(rows, col as int, row as int),
            decreases header_rows - row,
        {
            let ghost above = parts@;
            assert(rows[row as int][col as int] == place_text(grid@[row as int]@[col as int]));
            match &grid[row][col] {
                Some(text) => {
                    let value = trimmed(text, CharClass::Space);
                    let repeats = parts.len() > 0 && same_text(&parts[parts.len() - 1], value);
                    if parts.len() > 0 {
                        assert(texts(above).last() == above.last()@);
                    }
                    if value.len() > 0 && !repeats {
                        parts.push(copy_of(value));
                        assert(texts(parts@) =~= texts(above).push(value@));
                    }
                },
                None => {},
            }
            row += 1;
        }
        let heading = joined(&parts, &slash);
        keys.push(normalize_key(&heading, col + 1));
        col += 1;
    }
    assert(texts(keys@) =~= Seq::new(
        column_count(rows),
        |col: int|
            column_key(join(headings(rows, col, header_rows as int), " / "@), (col + 1) as nat),
    ));
    disambiguate_keys(&keys)
}

// ---- Laws ----

/// The headings of a column are the texts of its places in the header rows, trimmed, from top to
/// bottom: one more header row adds its text, unless that is empty or the same as the heading right
/// above.
pub proof fn law_headings_are_stacked(rows: Seq<Seq<Option<Seq<char>>>>, col: int, n: int)
    requires
        0 <= n < rows.len(),
        0 <= col < rows[n].len(),
    ensures
        headings(rows, col, 0).len() == 0,
        rows[n][col] is None ==> headings(rows, col, n + 1) == headings(rows, col, n),
        rows[n][col] matches Some(text) ==> {
            let above = headings(rows, col, n);
            let heading = trim(text, CharClass::Space);
            headings(rows, col, n + 1) == if heading.len() == 0 {
                above
            } else if above.len() > 0 && above[above.len() - 1] == heading {
                above
            } else {
                above.push(heading)
            }
        },
{
}

/// How often `key` stands in `keys`.
pub open spec fn times(keys: Seq<Seq<char>>, key: Seq<char>) -> nat {
    keys.filter(|k: Seq<char>| k == key).len()
}

proof fn lemma_earlier_equal(keys: Seq<Seq<char>>, i: int, n: int)
    requires
        0 <= n <= keys.len(),
    ensures
        earlier_equal(keys, i, n) == times(keys.take(n), keys[i]),
    decreases n,
{
    let p = |k: Seq<char>| k == keys[i];
    reveal(Seq::filter);
    if n > 0 {
        lemma_earlier_equal(keys, i, n - 1);
        assert(keys.take(n).drop_last() =~= keys.take(n - 1));
        assert(keys.take(n).last() == keys[n - 1]);
    } else {
        assert(keys.take(n).filter(p).len() == 0);
    }
}

/// A key that stands for the first time stays as it is; the second time it gets `_2`, the third
/// time `_3`, and so on.
pub proof fn law_repeated_keys_are_numbered(keys: Seq<Seq<char>>, i: int)
    requires
        0 <= i < keys.len(),
    ensures
        disambiguate(keys).len() == keys.len(),
        times(keys.take(i), keys[i]) == 0 ==> disambiguate(keys)[i] == keys[i],
        times(keys.take(i), keys[i]) > 0 ==> disambiguate(keys)[i] == keys[i] + seq!['_'] + decimal(
            times(keys.take(i), keys[i]) + 1,
        ),
{
    lemma_earlier_equal(keys, i, i);
}

/// Each column has a name: the key of its headings with ` / ` between them, for the column with its
/// number counted from 1. Repeated names are numbered.
pub proof fn law_columns_are_named_by_their_headings(
    rows: Seq<Seq<Option<Seq<char>>>>,
    header_rows: nat,
    col: int,
)
    requires
        header_rows <= rows.len(),
        rows.len() > 0,
        0 <= col < rows[0].len(),
    ensures
        column_names(rows, header_rows).len() == rows[0].len(),
        ({
            let key = |c: int|
                column_key(join(headings(rows, c, header_rows as int), " / "@), (c + 1) as nat);
            (forall|c: int| 0 <= c < col ==> #[trigger] key(c) != key(col)) ==> column_names(
                rows,
                header_rows,
            )[col] == key(col)
        }),
{
    let keys = Seq::new(
        rows[0].len(),
        |c: int| column_key(join(headings(rows, c, header_rows as int), " / "@), (c + 1) as nat),
    );
    let key = |c: int|
        column_key(join(headings(rows, c, header_rows as int), " / "@), (c + 1) as nat);
    if forall|c: int| 0 <= c < col ==> #[trigger] key(c) != key(col) {
        assert forall|c: int| 0 <= c < col implies #[trigger] keys[c] != keys[col] by {
            assert(key(c) != key(col));
        }
        lemma_none_earlier(keys, col, col);
    }
}

proof fn lemma_none_earlier(keys: Seq<Seq<char>>, i: int, n: int)
    requires
        forall|c: int| 0 <= c < n ==> #[trigger] keys[c] != keys[i],
    ensures
        earlier_equal(keys, i, n) == 0,
    decreases n,
{
    if n > 0 {
        assert(keys[n - 1] != keys[i]);
        lemma_none_earlier(keys, i, n - 1);
    }
}

/// A word of letters and digits in a heading comes into the key in lower case; between two words
/// stands one underscore, whatever stood there.
pub proof fn law_words_of_a_heading_make_its_key(
    word: Seq<char>,
    gap: Seq<char>,
    rest: Seq<char>,
    index: nat,
)
    requires
        word.len() > 0,
        forall|j: int| 0 <= j < word.len() ==> is_ascii_alnum(#[trigger] word[j]),
        gap.len() > 0,
        forall|j: int| 0 <= j < gap.len() ==> !is_ascii_alnum(#[trigger] gap[j]),
    ensures
        column_key(word, index) == lower(word),
        column_key(gap + word, index) == lower(word),
        column_key(gap, index) == "col_"@ + decimal(index),
        key_letters(rest).len() > 0 ==> column_key(word + gap + rest, index) == lower(word) + seq![
            '_',
        ] + column_key(rest, index),
        key_letters(rest).len() == 0 ==> column_key(word + gap + rest, index) == lower(word),
{
    let class = CharClass::Alnum;
    let none = CharClass::NonAlnum;
    let e = Seq::<char>::empty();
    assert(is_run(word, class));
    lemma_gaps_before_runs(gap, e, class, none);
    assert(gap + e =~= gap);
    lemma_gaps_before_runs(gap, word, class, none);
    assert(trim_start(e, none) =~= e);
    assert(runs(e, class, none) =~= Seq::empty());
    lemma_runs_front(word, e, class, none);
    assert(word + e =~= word);
    assert(runs(word, class, none) =~= seq![word]);
    assert(join(seq![word], seq!['_']) == word);
    let behind = gap + rest;
    assert(behind[0] == gap[0]);
    lemma_runs_front(word, behind, class, none);
    assert(word + gap + rest =~= word + behind);
    lemma_gaps_before_runs(gap, rest, class, none);
    let more = runs(rest, class, none);
    let all = seq![word] + more;
    lemma_letters_of_runs(rest);
    lemma_runs(rest, class, none);
    if more.len() == 0 {
        assert(all =~= seq![word]);
        assert(join(more, seq!['_']) =~= e);
    } else {
        lemma_join_front(all, seq!['_']);
        assert(all.skip(1) =~= more);
        let tail = join(more, seq!['_']);
        assert(is_run(more[0], class));
        if more.len() > 1 {
            lemma_join_front(more, seq!['_']);
        }
        assert(tail[0] == more[0][0]);
        assert(class.has(more[0][0]));
        lemma_letters_of_first(tail);
        assert(lower(word + seq!['_'] + tail) =~= lower(word) + seq!['_'] + lower(tail));
    }
}

proof fn lemma_letters_of_first(s: Seq<char>)
    requires
        s.len() > 0,
        is_ascii_alnum(s[0]),
    ensures
        key_letters(s).len() > 0,
    decreases s.len(),
{
    if s.len() > 1 {
        assert(s.drop_last()[0] == s[0]);
        lemma_letters_of_first(s.drop_last());
    }
}

} // verus!
