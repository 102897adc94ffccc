use vstd::prelude::*;

verus! {

/// Spacing and indentation rules for drawing a tile map.
///
/// `row_spacing`: blank lines before every row.
/// `tile_spacing`: spaces before every tile.
/// `top_indent`: blank lines before the whole map.
/// `left_indent`: tabs at the start of every row.
/// `bottom_indent`: blank lines after the whole map.
#[derive(Clone, Copy, Debug, PartialEq, Eq, Structural)]
pub struct Formatting {
    pub row_spacing: u8,
    pub tile_spacing: u8,
    pub top_indent: u8,
    pub left_indent: u8,
    pub bottom_indent: u8,
}

impl Default for Formatting {
    fn default() -> (r: Formatting)
        ensures
            r == Formatting::spec_default(),
    {
        Formatting { row_spacing: 1, tile_spacing: 1, top_indent: 3, left_indent: 1, bottom_indent: 2 }
    }
}

impl Formatting {
    /// The default rules: one blank line per row, one space per tile, three
    /// blank lines on top, one tab on the left, two blank lines at the bottom.
    pub open spec fn spec_default() -> Formatting {
        Formatting { row_spacing: 1, tile_spacing: 1, top_indent: 3, left_indent: 1, bottom_indent: 2 }
    }
}

/// `n` copies of `unit`, one after another.
pub open spec fn repeat(unit: Seq<char>, n: nat) -> Seq<char>
    decreases n,
{
    if n == 0 {
        Seq::empty()
    } else {
        repeat(unit, (n - 1) as nat) + unit
    }
}

pub open spec fn newlines(n: nat) -> Seq<char> {
    repeat(seq!['\n'], n)
}

pub open spec fn tabs(n: nat) -> Seq<char> {
    repeat(seq!['\t'], n)
}

pub open spec fn spaces(n: nat) -> Seq<char> {
    repeat(seq![' '], n)
}

/// The first `k` tiles of a row whose first token is `tokens[start]`, each
/// one after `spacing` spaces.
pub open spec fn row_tiles(spacing: nat, tokens: Seq<Seq<char>>, start: int, k: nat) -> Seq<char>
    decreases k,
{
    if k == 0 {
        Seq::empty()
    } else {
        row_tiles(spacing, tokens, start, (k - 1) as nat) + spaces(spacing) + tokens[start + k - 1]
    }
}

/// The text of row `r` of a map `width` tiles wide.
pub open spec fn row_text(f: Formatting, width: nat, tokens: Seq<Seq<char>>, r: nat) -> Seq<char> {
    newlines(f.row_spacing as nat) + tabs(f.left_indent as nat) + row_tiles(
        f.tile_spacing as nat,
        tokens,
        (r * width) as int,
        width,
    ) + seq!['\n']
}

/// The text of the first `k` rows.
pub open spec fn rows_text(f: Formatting, width: nat, tokens: Seq<Seq<char>>, k: nat) -> Seq<char>
    decreases k,
{
    if k == 0 {
        Seq::empty()
    } else {
        rows_text(f, width, tokens, (k - 1) as nat) + row_text(f, width, tokens, (k - 1) as nat)
    }
}

/// The whole text of a map `width` by `depth` whose cells, in row-major
/// order, have the given tokens.
pub open spec fn layout(f: Formatting, width: nat, depth: nat, tokens: Seq<Seq<char>>) -> Seq<char> {
    newlines(f.top_indent as nat) + rows_text(f, width, tokens, depth) + newlines(
        f.bottom_indent as nat,
    )
}

pub open spec fn token_views(tokens: Seq<String>) -> Seq<Seq<char>> {
    tokens.map_values(|s: String| s@)
}

/// The token of every cell: its own text where it has one, else `default`.
pub open spec fn shown_tokens(texts: Seq<Option<Seq<char>>>, default: Seq<char>) -> Seq<Seq<char>> {
    Seq::new(
        texts.len(),
        |i: int|
            match texts[i] {
                Some(t) => t,
                None => default,
            },
    )
}

/// Views of optional strings.
pub open spec fn option_views(texts: Seq<Option<String>>) -> Seq<Option<Seq<char>>> {
    texts.map_values(
        |o: Option<String>|
            match o {
                Some(s) => Some(s@),
                None => None,
            },
    )
}

/// The token of every cell: its own text where it has one, else `default`.
pub fn fill_tokens(texts: &Vec<Option<String>>, default: &String) -> (r: Vec<String>)
    ensures
        token_views(r@) == shown_tokens(option_views(texts@), default@),
{
    let mut out: Vec<String> = Vec::new();
    let mut i: usize = 0;
    while i < texts.len()
        invariant
            i <= texts@.len(),
            out@.len() == i,
            forall|j: int|
                0 <= j < i ==> #[trigger] out@[j]@ == shown_tokens(option_views(texts@), default@)[j],
        decreases texts@.len() - i,
    {
        let t = match &texts[i] {
            Some(s) => s.clone(),
            None => default.clone(),
        };
        out.push(t);
        i = i + 1;
    }
    assert(token_views(out@) =~= shown_tokens(option_views(texts@), default@));
    out
}

/// Every token with one more space in front.
pub open spec fn pad_tokens(tokens: Seq<Seq<char>>) -> Seq<Seq<char>> {
    tokens.map_values(|t: Seq<char>| seq![' '] + t)
}

proof fn lemma_row_tiles_step(spacing: nat, tokens: Seq<Seq<char>>, start: int, k: nat)
    requires
        0 <= start,
        start + k <= tokens.len(),
    ensures
        row_tiles(spacing + 1, tokens, start, k) == row_tiles(spacing, pad_tokens(tokens), start, k),
    decreases k,
{
    if k > 0 {
        lemma_row_tiles_step(spacing, tokens, start, (k - 1) as nat);
        let t = tokens[start + k - 1];
        assert(pad_tokens(tokens)[start + k - 1] == seq![' '] + t);
        assert(spaces(spacing + 1) == spaces(spacing) + seq![' ']);
        assert(spaces(spacing + 1) + t =~= spaces(spacing) + (seq![' '] + t));
        assert(row_tiles(spacing + 1, tokens, start, k) =~= row_tiles(spacing, pad_tokens(tokens), start, k));
    }
}

proof fn lemma_rows_text_step(f: Formatting, width: nat, depth: nat, tokens: Seq<Seq<char>>, k: nat)
    requires
        f.tile_spacing < 255,
        tokens.len() == width * depth,
        k <= depth,
    ensures
        rows_text(Formatting { tile_spacing: (f.tile_spacing + 1) as u8, ..f }, width, tokens, k)
            == rows_text(f, width, pad_tokens(tokens), k),
    decreases k,
{
    if k > 0 {
        let g = Formatting { tile_spacing: (f.tile_spacing + 1) as u8, ..f };
        lemma_rows_text_step(f, width, depth, tokens, (k - 1) as nat);
        let r = (k - 1) as nat;
        assert(r * width + width <= width * depth) by (nonlinear_arith)
            requires
                r < depth,
        ;
        lemma_row_tiles_step(f.tile_spacing as nat, tokens, (r * width) as int, width);
        assert(row_text(g, width, tokens, r) == row_text(f, width, pad_tokens(tokens), r));
    }
}

/// One more space of tile spacing puts exactly one more space in front of
/// every tile and changes nothing else: the text is the one drawn with the
/// old spacing from tokens that each start with one more space.
pub proof fn lemma_tile_spacing_step(f: Formatting, width: nat, depth: nat, tokens: Seq<Seq<char>>)
    requires
        f.tile_spacing < 255,
        tokens.len() == width * depth,
    ensures
        layout(Formatting { tile_spacing: (f.tile_spacing + 1) as u8, ..f }, width, depth, tokens)
            == layout(f, width, depth, pad_tokens(tokens)),
{
    lemma_rows_text_step(f, width, depth, tokens, depth);
}

/// With every spacing and indent at zero, a map of one cell is drawn as the
/// cell's token and one newline, and nothing else.
pub proof fn lemma_bare_single_cell(f: Formatting, tokens: Seq<Seq<char>>)
    requires
        f.row_spacing == 0,
        f.tile_spacing == 0,
        f.top_indent == 0,
        f.left_indent == 0,
        f.bottom_indent == 0,
        tokens.len() == 1,
    ensures
        layout(f, 1, 1, tokens) == tokens[0] + seq!['\n'],
{
    assert(spaces(0) == Seq::<char>::empty());
    assert(newlines(0) == Seq::<char>::empty());
    assert(tabs(0) == Seq::<char>::empty());
    assert(row_tiles(0, tokens, 0, 0) == Seq::<char>::empty());
    assert(rows_text(f, 1, tokens, 0) == Seq::<char>::empty());
    assert(row_tiles(0, tokens, 0, 1) =~= tokens[0]);
    assert(row_text(f, 1, tokens, 0) =~= tokens[0] + seq!['\n']);
    assert(rows_text(f, 1, tokens, 1) =~= tokens[0] + seq!['\n']);
    assert(layout(f, 1, 1, tokens) =~= tokens[0] + seq!['\n']);
}

fn push_repeat(out: &mut String, unit: &str, n: u8)
    ensures
        final(out)@ == old(out)@ + repeat(unit@, n as nat),
{
    let mut i: u8 = 0;
    while i < n
        invariant
            i <= n,
            out@ == old(out)@ + repeat(unit@, i as nat),
        decreases n - i,
    {
        out.append(unit);
        proof {
            assert(repeat(unit@, (i + 1) as nat) == repeat(unit@, i as nat) + unit@);
        }
        i = i + 1;
    }
}

fn push_newlines(out: &mut String, n: u8)
    ensures
        final(out)@ == old(out)@ + newlines(n as nat),
{
    proof {
        reveal_strlit("\n");
        assert("\n"@ =~= seq!['\n']);
    }
    push_repeat(out, "\n", n);
}

/// Lays out a map `width` tiles wide and `depth` tiles deep whose cells, in
/// row-major order, have the given tokens.
pub fn layout_text(f: Formatting, width: u16, depth: u16, tokens: &Vec<String>) -> (r: String)
    requires
        tokens@.len() == width * depth,
    ensures
        r@ == layout(f, width as nat, depth as nat, token_views(tokens@)),
{
    let ghost toks = token_views(tokens@);
    proof {
        reveal_strlit("\n");
        reveal_strlit("\t");
        reveal_strlit(" ");
        assert("\t"@ =~= seq!['\t']);
        assert(" "@ =~= seq![' ']);
        assert("\n"@ =~= seq!['\n']);
    }
    let n: usize = tokens.len();
    let mut out = String::new();
    push_newlines(&mut out, f.top_indent);
    let ghost top = out@;
    let mut r: u16 = 0;
    while r < depth
        invariant
            r <= depth,
            tokens@.len() == width * depth,
            n == tokens@.len(),
            toks == token_views(tokens@),
            "\t"@ == seq!['\t'],
            " "@ == seq![' '],
            "\n"@ == seq!['\n'],
            top == newlines(f.top_indent as nat),
            out@ == top + rows_text(f, width as nat, toks, r as nat),
        decreases depth - r,
    {
        let ghost before = out@;
        push_newlines(&mut out, f.row_spacing);
        push_repeat(&mut out, "\t", f.left_indent);
        let ghost head = out@;
        assert(head == before + newlines(f.row_spacing as nat) + tabs(f.left_indent as nat));
        proof {
            assert(r * width + width <= width * depth) by (nonlinear_arith)
                requires
                    r < depth,
            ;
        }
        let base: usize = r as usize * width as usize;
        let mut c: u16 = 0;
        while c < width
            invariant
                c <= width,
                r < depth,
                base == r * width,
                base + width <= tokens@.len(),
                n == tokens@.len(),
                " "@ == seq![' '],
                toks == token_views(tokens@),
                out@ == head + row_tiles(f.tile_spacing as nat, toks, base as int, c as nat),
            decreases width - c,
        {
            let ghost mid = out@;
            push_repeat(&mut out, " ", f.tile_spacing);
            let tok = tokens[base + c as usize].as_str();
            assert(tok@ == toks[base + c]);
            out.append(tok);
            assert(row_tiles(f.tile_spacing as nat, toks, base as int, (c + 1) as nat)
                == row_tiles(f.tile_spacing as nat, toks, base as int, c as nat) + spaces(f.tile_spacing as nat) + toks[base + c]);
            assert(out@ == mid + spaces(f.tile_spacing as nat) + toks[base + c]);
            c = c + 1;
        }
        out.append("\n");
        proof {
            assert(out@ == before + row_text(f, width as nat, toks, r as nat));
            assert(out@ == top + rows_text(f, width as nat, toks, (r + 1) as nat));
        }
        r = r + 1;
    }
    push_newlines(&mut out, f.bottom_indent);
    out
}

} // verus!
