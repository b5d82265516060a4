use vstd::prelude::*;
use crate::meta::{TableEntry, TableEntryKind, TableEntryView};
use crate::report::RowStatus;

verus! {

/// The fixed-width text of one table cell.  An empty cell and a `Space`
/// cell are nine blanks; a vote gap and a waiting cell are fixed markers; a
/// `Vote` or `Landed` cell shows its sign, a success marker, and the
/// four-character signature prefix on both sides of a separator.
pub open spec fn glyph_spec(e: Option<TableEntryView>) -> Seq<char> {
    match e {
        Option::None => "         "@,
        Option::Some(ev) => match ev.kind {
            TableEntryKind::Space => "         "@,
            TableEntryKind::VoteGap => "   xx    "@,
            TableEntryKind::Waiting => "   ^^    "@,
            TableEntryKind::Vote => glyph_signed('+', ev),
            TableEntryKind::Landed => glyph_signed('=', ev),
        },
    }
}

/// The text of a `Vote` or `Landed` cell with its sign character.
pub open spec fn glyph_signed(sign: char, ev: TableEntryView) -> Seq<char> {
    seq![sign, if ev.vote_meta.success { ' ' } else { '!' }] + ev.vote_meta.signature.take(4)
        + ".."@ + ev.vote_meta.signature.take(4)
}

/// Render one table cell; an absent entry renders as blank space.
pub fn render_glyph(e: Option<&TableEntry>) -> (r: String)
    requires
        match e {
            Option::Some(entry) => entry.vote_meta.signature@.len() >= 4,
            Option::None => true,
        },
    ensures
        r@ == glyph_spec(match e {
            Option::Some(entry) => Option::Some(entry@),
            Option::None => Option::None,
        }),
{
    let entry = match e {
        None => {
            return String::from_str("         ");
        },
        Some(entry) => entry,
    };
    let sign: &str = match entry.kind {
        TableEntryKind::Space => {
            return String::from_str("         ");
        },
        TableEntryKind::VoteGap => {
            return String::from_str("   xx    ");
        },
        TableEntryKind::Waiting => {
            return String::from_str("   ^^    ");
        },
        TableEntryKind::Vote => "+",
        TableEntryKind::Landed => "=",
    };
    let mut g = String::from_str(sign);
    let marker: &str = if entry.vote_meta.success {
        " "
    } else {
        "!"
    };
    g.append(marker);
    let prefix = entry.vote_meta.signature.as_str().substring_char(0, 4);
    g.append(prefix);
    g.append("..");
    g.append(prefix);
    proof {
        reveal_strlit("+");
        reveal_strlit("=");
        reveal_strlit(" ");
        reveal_strlit("!");
        reveal_strlit("..");
        assert(entry.vote_meta.signature@.take(4) =~= entry.vote_meta.signature@.subrange(0, 4));
        assert(g@ =~= glyph_spec(Option::Some(entry@)));
    }
    g
}

/// What a glyph means: the cell kind, the success flag, and the signature
/// prefix (the flag and prefix are trivial for the three fixed glyphs).
pub open spec fn parse_glyph_spec(g: Seq<char>) -> Option<(TableEntryKind, bool, Seq<char>)> {
    if g == "         "@ {
        Option::Some((TableEntryKind::Space, true, Seq::<char>::empty()))
    } else if g == "   xx    "@ {
        Option::Some((TableEntryKind::VoteGap, true, Seq::<char>::empty()))
    } else if g == "   ^^    "@ {
        Option::Some((TableEntryKind::Waiting, true, Seq::<char>::empty()))
    } else if g.len() == 12 && (g[0] == '+' || g[0] == '=') && (g[1] == ' ' || g[1] == '!')
        && g.subrange(6, 8) == ".."@ && g.subrange(2, 6) == g.subrange(8, 12) {
        Option::Some(
            (
                if g[0] == '+' {
                    TableEntryKind::Vote
                } else {
                    TableEntryKind::Landed
                },
                g[1] == ' ',
                g.subrange(2, 6),
            ),
        )
    } else {
        Option::None
    }
}

/// Rendering a cell and parsing the text back recovers the cell's kind,
/// and for a `Vote` or `Landed` cell also the four-character signature
/// prefix and the success flag.
pub proof fn lemma_glyph_round_trip(ev: TableEntryView)
    requires
        ev.vote_meta.signature.len() >= 4,
    ensures
        parse_glyph_spec(glyph_spec(Option::Some(ev))) is Some,
        (parse_glyph_spec(glyph_spec(Option::Some(ev)))->0).0 == ev.kind,
        ev.kind == TableEntryKind::Vote || ev.kind == TableEntryKind::Landed
            ==> (parse_glyph_spec(glyph_spec(Option::Some(ev)))->0).1 == ev.vote_meta.success
            && (parse_glyph_spec(glyph_spec(Option::Some(ev)))->0).2 == ev.vote_meta.signature.take(
            4,
        ),
{
    reveal_strlit("         ");
    reveal_strlit("   xx    ");
    reveal_strlit("   ^^    ");
    reveal_strlit("..");
    let g = glyph_spec(Option::Some(ev));
    match ev.kind {
        TableEntryKind::Space => {
        },
        TableEntryKind::VoteGap => {
            assert(g[3] == 'x' && "         "@[3] == ' ');
        },
        TableEntryKind::Waiting => {
            assert(g[3] == '^' && "         "@[3] == ' ');
        },
        TableEntryKind::Vote => {
            lemma_signed_glyph_parses('+', ev);
        },
        TableEntryKind::Landed => {
            lemma_signed_glyph_parses('=', ev);
        },
    }
}

proof fn lemma_signed_glyph_parses(sign: char, ev: TableEntryView)
    requires
        ev.vote_meta.signature.len() >= 4,
        sign == '+' || sign == '=',
    ensures
        parse_glyph_spec(glyph_signed(sign, ev)) == Option::Some(
            (
                if sign == '+' {
                    TableEntryKind::Vote
                } else {
                    TableEntryKind::Landed
                },
                ev.vote_meta.success,
                ev.vote_meta.signature.take(4),
            ),
        ),
{
    reveal_strlit("         ");
    reveal_strlit("   xx    ");
    reveal_strlit("   ^^    ");
    reveal_strlit("..");
    let g = glyph_signed(sign, ev);
    assert(g.len() == 12);
    assert(g != "         "@ && g != "   xx    "@ && g != "   ^^    "@) by {
        assert("         "@.len() == 9 && "   xx    "@.len() == 9 && "   ^^    "@.len() == 9);
    }
    assert(g[0] == sign);
    assert(g[1] == (if ev.vote_meta.success {
        ' '
    } else {
        '!'
    }));
    assert(g.subrange(6, 8) =~= ".."@);
    assert(g.subrange(2, 6) =~= ev.vote_meta.signature.take(4));
    assert(g.subrange(8, 12) =~= ev.vote_meta.signature.take(4));
}

/// The decimal digit character for `d`.
pub open spec fn digit_char(d: nat) -> char {
    if d == 0 {
        '0'
    } else if d == 1 {
        '1'
    } else if d == 2 {
        '2'
    } else if d == 3 {
        '3'
    } else if d == 4 {
        '4'
    } else if d == 5 {
        '5'
    } else if d == 6 {
        '6'
    } else if d == 7 {
        '7'
    } else if d == 8 {
        '8'
    } else {
        '9'
    }
}

/// The decimal text of `n`.
pub open spec fn dec_rep(n: nat) -> Seq<char>
    decreases n,
{
    if n < 10 {
        seq![digit_char(n)]
    } else {
        dec_rep(n / 10).push(digit_char(n % 10))
    }
}

/// One decimal digit as text.
fn digit_str(d: u64) -> (s: String)
    requires
        d < 10,
    ensures
        s@ == seq![digit_char(d as nat)],
{
    let s = match d {
        0 => String::from_str("0"),
        1 => String::from_str("1"),
        2 => String::from_str("2"),
        3 => String::from_str("3"),
        4 => String::from_str("4"),
        5 => String::from_str("5"),
        6 => String::from_str("6"),
        7 => String::from_str("7"),
        8 => String::from_str("8"),
        _ => String::from_str("9"),
    };
    proof {
        reveal_strlit("0");
        reveal_strlit("1");
        reveal_strlit("2");
        reveal_strlit("3");
        reveal_strlit("4");
        reveal_strlit("5");
        reveal_strlit("6");
        reveal_strlit("7");
        reveal_strlit("8");
        reveal_strlit("9");
        assert(s@ =~= seq![digit_char(d as nat)]);
    }
    s
}

/// Render a slot number in decimal.
pub fn u64_to_dec(n: u64) -> (s: String)
    ensures
        s@ == dec_rep(n as nat),
    decreases n,
{
    if n < 10 {
        digit_str(n)
    } else {
        let mut s = u64_to_dec(n / 10);
        let d = digit_str(n % 10);
        s.append(d.as_str());
        proof {
            assert(s@ =~= dec_rep((n / 10) as nat).push(digit_char((n % 10) as nat)));
        }
        s
    }
}

/// `w` blank characters.
pub open spec fn blanks(w: nat) -> Seq<char>
    decreases w,
{
    if w == 0 {
        Seq::<char>::empty()
    } else {
        blanks((w - 1) as nat).push(' ')
    }
}

/// `s` padded with blanks on the left to at least `w` characters.
pub open spec fn pad_left_spec(s: Seq<char>, w: nat) -> Seq<char> {
    if s.len() >= w {
        s
    } else {
        blanks((w - s.len()) as nat) + s
    }
}

/// The status tag printed on both sides of the slot number.
pub open spec fn status_tag_spec(st: RowStatus) -> Seq<char> {
    match st {
        RowStatus::Confirmed => "      "@,
        RowStatus::Miss => " MISS "@,
        RowStatus::Skip => " SKIP "@,
    }
}

/// The status tag of one row.
pub fn status_tag(st: RowStatus) -> (r: String)
    ensures
        r@ == status_tag_spec(st),
{
    match st {
        RowStatus::Confirmed => String::from_str("      "),
        RowStatus::Miss => String::from_str(" MISS "),
        RowStatus::Skip => String::from_str(" SKIP "),
    }
}

/// The view of one row cell.
pub open spec fn cell_view(c: Option<TableEntry>) -> Option<TableEntryView> {
    match c {
        Option::Some(e) => Option::Some(e@),
        Option::None => Option::None,
    }
}

/// The glyphs of a row's cells, each followed by a separator.
pub open spec fn row_cells_spec(row: Seq<Option<TableEntry>>) -> Seq<char>
    decreases row.len(),
{
    if row.len() == 0 {
        Seq::<char>::empty()
    } else {
        row_cells_spec(row.drop_last()) + glyph_spec(cell_view(row.last())) + " | "@
    }
}

/// One printed table line: the status tag, the slot number right-aligned
/// to eight characters, the tag again, a blank, then every cell's glyph
/// followed by a separator.
pub open spec fn row_line_spec(st: RowStatus, slot: u64, row: Seq<Option<TableEntry>>) -> Seq<
    char,
> {
    status_tag_spec(st) + pad_left_spec(dec_rep(slot as nat), 8) + status_tag_spec(st) + " "@
        + row_cells_spec(row)
}

/// Render one table line.
pub fn render_row_line(st: RowStatus, slot: u64, row: &Vec<Option<TableEntry>>) -> (r: String)
    requires
        forall|i: int|
            0 <= i < row@.len() && (#[trigger] row@[i]) is Some ==> row@[i]->0.vote_meta.signature@.len()
                >= 4,
    ensures
        r@ == row_line_spec(st, slot, row@),
{
    let mut line = status_tag(st);
    let digits = u64_to_dec(slot);
    let na = digits.unicode_len();
    let mut w = na;
    proof {
        assert(line@ =~= status_tag_spec(st) + blanks(0));
    }
    while w < 8
        invariant
            na == digits@.len(),
            w >= na,
            w <= 8 || w == na,
            line@ == status_tag_spec(st) + blanks((w - na) as nat),
        decreases 8 - w,
    {
        line.append(" ");
        proof {
            reveal_strlit(" ");
            assert(line@ =~= status_tag_spec(st) + blanks((w + 1 - na) as nat));
        }
        w += 1;
    }
    line.append(digits.as_str());
    line.append(status_tag(st).as_str());
    line.append(" ");
    proof {
        reveal_strlit(" ");
        if na >= 8 {
            assert(blanks(0) =~= Seq::<char>::empty());
            assert(pad_left_spec(dec_rep(slot as nat), 8) == digits@);
        } else {
            assert(pad_left_spec(dec_rep(slot as nat), 8) == blanks((8 - na) as nat) + digits@);
        }
        assert(line@ =~= status_tag_spec(st) + pad_left_spec(dec_rep(slot as nat), 8)
            + status_tag_spec(st) + " "@);
        assert(row@.take(0) =~= Seq::<Option<TableEntry>>::empty());
    }
    let ghost head = line@;
    let mut i: usize = 0;
    while i < row.len()
        invariant
            forall|k: int|
                0 <= k < row@.len() && (#[trigger] row@[k]) is Some ==> row@[k]->0.vote_meta.signature@.len()
                    >= 4,
            0 <= i <= row@.len(),
            line@ == head + row_cells_spec(row@.take(i as int)),
        decreases row@.len() - i,
    {
        let g = render_glyph(row[i].as_ref());
        line.append(g.as_str());
        line.append(" | ");
        proof {
            reveal_strlit(" | ");
            assert(row@.take(i + 1).drop_last() =~= row@.take(i as int));
            assert(row@.take(i + 1).last() == row@[i as int]);
            assert(line@ =~= head + row_cells_spec(row@.take(i + 1)));
        }
        i += 1;
    }
    proof {
        assert(row@.take(row@.len() as int) =~= row@);
    }
    line
}

} // verus!
