//! The level parser: turns the lines of a textual level description into a
//! validated root state. Input that would break a state invariant — ragged
//! or unwalled borders, duplicate or non-dense agents, oversized grids —
//! is rejected rather than trusted.

use vstd::prelude::*;
use crate::color::Color;
use crate::model::{Model, no_box};
use crate::state::{State, model_of};

verus! {

broadcast use {crate::views::lemma_deep_len, crate::views::lemma_deep_index};



/// Position of the first colon at or after i in the line, if any.
pub open spec fn first_colon(line: Seq<char>, i: int) -> Option<int>
    decreases line.len() - i,
{
    if i < 0 || i >= line.len() {
        None
    } else if line[i] == ':' {
        Some(i)
    } else {
        first_colon(line, i + 1)
    }
}

/// The non-space characters among the first j of the line: a color name.
pub open spec fn name_part(line: Seq<char>, j: int) -> Seq<char> {
    line.take(j).filter(|c: char| c != ' ')
}

/// The color named before the colon at position cp.
pub open spec fn line_color(line: Seq<char>, cp: int) -> Color {
    crate::color::spec_color_of_name(crate::color::lower_seq(name_part(line, cp)))
}

/// The color tables after reading the entity list from position k on: the
/// first non-space character of each comma-separated token assigns the
/// line's color to that agent digit or box letter.
pub open spec fn apply_entities(
    line: Seq<char>,
    k: int,
    at_start: bool,
    col: Color,
    ac: Seq<Color>,
    bc: Seq<Color>,
) -> (Seq<Color>, Seq<Color>)
    decreases line.len() - k,
{
    if k < 0 || k >= line.len() {
        (ac, bc)
    } else {
        let c = line[k];
        if c == ',' {
            apply_entities(line, k + 1, true, col, ac, bc)
        } else if c == ' ' {
            apply_entities(line, k + 1, at_start, col, ac, bc)
        } else if at_start {
            if '0' <= c <= '9' {
                apply_entities(line, k + 1, false, col, ac.update(c as int - 48, col), bc)
            } else if 'A' <= c <= 'Z' {
                apply_entities(line, k + 1, false, col, ac, bc.update(c as int - 65, col))
            } else {
                apply_entities(line, k + 1, false, col, ac, bc)
            }
        } else {
            apply_entities(line, k + 1, false, col, ac, bc)
        }
    }
}

/// The color tables after one `color: entity, entity, ...` line. A line
/// without a colon changes nothing.
pub open spec fn apply_line(line: Seq<char>, ac: Seq<Color>, bc: Seq<Color>) -> (
    Seq<Color>,
    Seq<Color>,
) {
    match first_colon(line, 0) {
        None => (ac, bc),
        Some(cp) => apply_entities(line, cp + 1, true, line_color(line, cp), ac, bc),
    }
}

/// The color tables after the lines from `from` (inclusive) to `to`.
pub open spec fn apply_color_lines(
    lines: Seq<Seq<char>>,
    from: int,
    to: int,
    ac: Seq<Color>,
    bc: Seq<Color>,
) -> (Seq<Color>, Seq<Color>)
    decreases to - from,
{
    if from >= to {
        (ac, bc)
    } else {
        let next = apply_line(lines[from], ac, bc);
        apply_color_lines(lines, from + 1, to, next.0, next.1)
    }
}

/// All-blue tables of the given size: the default before any color line.
pub open spec fn default_colors(n: nat) -> Seq<Color> {
    Seq::new(n, |i: int| Color::Blue)
}

/// How the parsed color tables correspond to the level text: they are the
/// defaults folded through the color lines, which run from line 5 up to
/// the section header at line cb.
pub open spec fn colors_match(lines: Seq<Seq<char>>, cb: int, m: Model) -> bool {
    &&& m.agent_colors == apply_color_lines(
        lines,
        5,
        cb,
        default_colors(10),
        default_colors(26),
    ).0
    &&& m.box_colors == apply_color_lines(lines, 5, cb, default_colors(10), default_colors(26)).1
}

proof fn lemma_apply_lines_snoc(
    lines: Seq<Seq<char>>,
    from: int,
    to: int,
    ac: Seq<Color>,
    bc: Seq<Color>,
)
    requires
        from <= to,
    ensures
        apply_color_lines(lines, from, to + 1, ac, bc) == {
            let prev = apply_color_lines(lines, from, to, ac, bc);
            apply_line(lines[to], prev.0, prev.1)
        },
    decreases to - from,
{
    if from == to {
        assert(apply_color_lines(lines, to, to + 1, ac, bc) == {
            let next = apply_line(lines[to], ac, bc);
            apply_color_lines(lines, to + 1, to + 1, next.0, next.1)
        });
        assert(apply_color_lines(lines, from, to, ac, bc) == (ac, bc));
    } else {
        let next = apply_line(lines[from], ac, bc);
        lemma_apply_lines_snoc(lines, from + 1, to, next.0, next.1);
    }
}

/// The character of a grid line, with short lines padded by spaces.
pub open spec fn gchar(lines: Seq<Seq<char>>, base: int, r: int, c: int) -> char {
    if 0 <= base + r < lines.len() && 0 <= c < lines[base + r].len() {
        lines[base + r][c]
    } else {
        ' '
    }
}

/// The box a grid character denotes.
pub open spec fn box_of(ch: char) -> char {
    if 'A' <= ch <= 'Z' {
        ch
    } else {
        no_box()
    }
}

/// The goal a goal-grid character denotes.
pub open spec fn goal_of(ch: char) -> char {
    if ('A' <= ch <= 'Z') || ('0' <= ch <= '9') {
        ch
    } else {
        no_box()
    }
}

/// How a parsed model corresponds to the level text: walls are exactly the
/// `+` cells of the initial grid starting at line `ib`, boxes are its
/// letters, agent k stands exactly where digit k is written, and the goal
/// grid holds the letters and digits of the `gcnt` lines starting at `gb`.
pub open spec fn level_matches(lines: Seq<Seq<char>>, ib: int, gb: int, gcnt: int, m: Model) -> bool {
    &&& forall|r: int, c: int|
        0 <= r < m.n_rows() && 0 <= c < m.n_cols() ==> #[trigger] m.wall_at(r, c) == (gchar(
            lines,
            ib,
            r,
            c,
        ) == '+')
    &&& forall|r: int, c: int|
        0 <= r < m.n_rows() && 0 <= c < m.n_cols() ==> #[trigger] m.box_at(r, c) == box_of(
            gchar(lines, ib, r, c),
        )
    &&& forall|r: int, c: int|
        0 <= r < m.n_rows() && 0 <= c < m.n_cols() && '0' <= #[trigger] gchar(lines, ib, r, c)
            <= '9' ==> {
            let d = gchar(lines, ib, r, c) as int - 48;
            d < m.n_agents() && m.rows[d] == r && m.cols[d] == c
        }
    &&& forall|i: int|
        0 <= i < m.n_agents() ==> gchar(lines, ib, #[trigger] m.rows[i], m.cols[i]) == ((48
            + i) as u8) as char
    &&& forall|r: int, c: int|
        0 <= r < m.n_rows() && 0 <= c < m.n_cols() ==> #[trigger] m.goals[r][c] == (if r < gcnt {
            goal_of(gchar(lines, gb, r, c))
        } else {
            no_box()
        })
}

/// The length of a line without its trailing spaces.
fn trimmed_len(line: &Vec<char>) -> (r: usize)
    ensures
        r <= line@.len(),
{
    let mut t = line.len();
    while t > 0
        invariant
            t <= line@.len(),
        decreases t,
    {
        if line[t - 1] != ' ' {
            return t;
        }
        t -= 1;
    }
    0
}

fn starts_with_hash(line: &Vec<char>) -> (r: bool)
{
    line.len() > 0 && line[0] == '#'
}

/// Applies one `color: entity, entity, ...` line to the color tables.
fn apply_color_line(line: &Vec<char>, agent_colors: &mut Vec<Color>, box_colors: &mut Vec<Color>)
    requires
        old(agent_colors)@.len() == 10,
        old(box_colors)@.len() == 26,
    ensures
        final(agent_colors)@.len() == 10,
        final(box_colors)@.len() == 26,
        final(agent_colors)@ == apply_line(line@, old(agent_colors)@, old(box_colors)@).0,
        final(box_colors)@ == apply_line(line@, old(agent_colors)@, old(box_colors)@).1,
{
    let ghost ac0 = agent_colors@;
    let ghost bc0 = box_colors@;
    let n = line.len();
    let mut colon: usize = 0;
    let mut found = false;
    let mut i: usize = 0;
    while i < n
        invariant_except_break
            i <= n,
            n == line@.len(),
            !found,
            first_colon(line@, 0) == first_colon(line@, i as int),
        ensures
            found ==> colon < n && first_colon(line@, 0) == Some(colon as int),
            !found ==> first_colon(line@, 0) is None,
        decreases n - i,
    {
        if line[i] == ':' {
            colon = i;
            found = true;
            proof {
                assert(first_colon(line@, i as int) == Some(i as int));
            }
            break;
        }
        i += 1;
    }
    if !found {
        return;
    }
    let mut name: Vec<char> = Vec::new();
    let mut j: usize = 0;
    while j < colon
        invariant
            j <= colon,
            colon < n,
            n == line@.len(),
            name@ == name_part(line@, j as int),
        decreases colon - j,
    {
        let c = line[j];
        proof {
            reveal(Seq::filter);
            assert(line@.take(j as int + 1).drop_last() =~= line@.take(j as int));
            assert(line@.take(j as int + 1).last() == line@[j as int]);
        }
        if c != ' ' {
            name.push(c);
        }
        j += 1;
    }
    let color = Color::from_chars(&name);
    proof {
        assert(color == line_color(line@, colon as int));
    }
    let mut k: usize = colon + 1;
    let mut at_token_start = true;
    while k < n
        invariant
            colon < n,
            colon + 1 <= k <= n,
            n == line@.len(),
            agent_colors@.len() == 10,
            box_colors@.len() == 26,
            color == line_color(line@, colon as int),
            apply_entities(line@, colon + 1, true, color, ac0, bc0) == apply_entities(
                line@,
                k as int,
                at_token_start,
                color,
                agent_colors@,
                box_colors@,
            ),
        decreases n - k,
    {
        let c = line[k];
        if c == ',' {
            at_token_start = true;
        } else if c != ' ' {
            if at_token_start {
                if c >= '0' && c <= '9' {
                    let d = (c as u32 - 48) as usize;
                    agent_colors[d] = color;
                } else if c >= 'A' && c <= 'Z' {
                    let d = (c as u32 - 65) as usize;
                    box_colors[d] = color;
                }
                at_token_start = false;
            }
        }
        k += 1;
    }
    proof {
        assert(apply_entities(line@, n as int, at_token_start, color, agent_colors@, box_colors@)
            == (agent_colors@, box_colors@));
        assert(first_colon(line@, 0) == Some(colon as int));
    }
}

/// Parses a complete level description into its root state. Returns None
/// when the input does not describe a well-formed level.
pub fn parse_level(lines: &Vec<Vec<char>>) -> (r: Option<State>)
    ensures
        r matches Some(s) ==> s.wf() && s.is_root() && exists|
            cb: int,
            ib: int,
            gb: int,
            gcnt: int,
        | colors_match(lines.deep_view(), cb, s@) && level_matches(
            lines.deep_view(),
            ib,
            gb,
            gcnt,
            s@,
        ),
{
    let ghost bigl = lines.deep_view();
    if lines.len() < 6 {
        return None;
    }
    if !starts_with_hash(&lines[4]) {
        return None;
    }
    let mut agent_colors: Vec<Color> = Vec::new();
    let mut box_colors: Vec<Color> = Vec::new();
    let mut d: usize = 0;
    while d < 10
        invariant
            agent_colors@.len() == d,
            d <= 10,
            forall|t: int| 0 <= t < d ==> #[trigger] agent_colors@[t] == Color::Blue,
        decreases 10 - d,
    {
        agent_colors.push(Color::Blue);
        d += 1;
    }
    let mut d2: usize = 0;
    while d2 < 26
        invariant
            box_colors@.len() == d2,
            d2 <= 26,
            forall|t: int| 0 <= t < d2 ==> #[trigger] box_colors@[t] == Color::Blue,
        decreases 26 - d2,
    {
        box_colors.push(Color::Blue);
        d2 += 1;
    }
    proof {
        assert(agent_colors@ =~= default_colors(10));
        assert(box_colors@ =~= default_colors(26));
    }
    let total = lines.len();
    let mut idx: usize = 5;
    while idx < total
        invariant
            5 <= idx <= total,
            total == lines@.len(),
            bigl == lines.deep_view(),
            agent_colors@.len() == 10,
            box_colors@.len() == 26,
            agent_colors@ == apply_color_lines(
                bigl,
                5,
                idx as int,
                default_colors(10),
                default_colors(26),
            ).0,
            box_colors@ == apply_color_lines(
                bigl,
                5,
                idx as int,
                default_colors(10),
                default_colors(26),
            ).1,
        decreases total - idx,
    {
        if starts_with_hash(&lines[idx]) {
            break;
        }
        proof {
            lemma_apply_lines_snoc(bigl, 5, idx as int, default_colors(10), default_colors(26));
            assert(bigl[idx as int] == lines@[idx as int]@);
        }
        apply_color_line(&lines[idx], &mut agent_colors, &mut box_colors);
        idx += 1;
    }
    if idx >= total {
        return None;
    }
    let ghost cb = idx as int;
    // lines[idx] is the initial-state header.
    let init_start = idx + 1;
    let mut scan = init_start;
    while scan < total
        invariant
            init_start <= scan <= total,
            total == lines@.len(),
        decreases total - scan,
    {
        if starts_with_hash(&lines[scan]) {
            break;
        }
        scan += 1;
    }
    if scan >= total || scan == init_start {
        return None;
    }
    let init_end = scan;
    let nrows = init_end - init_start;
    let mut ncols: usize = 0;
    let mut li = init_start;
    while li < init_end
        invariant
            init_start <= li <= init_end,
            init_end < total,
            total == lines@.len(),
        decreases init_end - li,
    {
        let t = trimmed_len(&lines[li]);
        if t > ncols {
            ncols = t;
        }
        li += 1;
    }
    if nrows < 1 || nrows > 512 || ncols < 1 || ncols > 512 {
        return None;
    }
    // Build the wall and box grids and collect agent positions.
    let mut walls: Vec<Vec<bool>> = Vec::new();
    let mut boxes: Vec<Vec<char>> = Vec::new();
    let mut seen: Vec<bool> = Vec::new();
    let mut arows: Vec<usize> = Vec::new();
    let mut acols: Vec<usize> = Vec::new();
    let mut d3: usize = 0;
    while d3 < 10
        invariant
            seen@.len() == d3,
            arows@.len() == d3,
            acols@.len() == d3,
            d3 <= 10,
            forall|t: int| 0 <= t < d3 ==> !(#[trigger] seen@[t]),
        decreases 10 - d3,
    {
        seen.push(false);
        arows.push(0);
        acols.push(0);
        d3 += 1;
    }
    let mut r: usize = 0;
    while r < nrows
        invariant
            r <= nrows,
            bigl == lines.deep_view(),
            init_start + nrows == init_end,
            init_end < total,
            total == lines@.len(),
            walls@.len() == r,
            boxes@.len() == r,
            seen@.len() == 10,
            arows@.len() == 10,
            acols@.len() == 10,
            forall|t: int| 0 <= t < r ==> (#[trigger] walls@[t]@).len() == ncols,
            forall|t: int| 0 <= t < r ==> (#[trigger] boxes@[t]@).len() == ncols,
            forall|t: int, u: int|
                0 <= t < r && 0 <= u < ncols ==> (#[trigger] boxes@[t]@[u] == no_box() || 'A'
                    <= boxes@[t]@[u] <= 'Z'),
            forall|t: int, u: int|
                0 <= t < r && 0 <= u < ncols ==> #[trigger] walls@[t]@[u] == (gchar(
                    bigl,
                    init_start as int,
                    t,
                    u,
                ) == '+'),
            forall|t: int, u: int|
                0 <= t < r && 0 <= u < ncols ==> #[trigger] boxes@[t]@[u] == box_of(
                    gchar(bigl, init_start as int, t, u),
                ),
            forall|d: int|
                0 <= d < 10 && #[trigger] seen@[d] ==> 0 <= arows@[d] < r && 0 <= acols@[d]
                    < ncols && gchar(bigl, init_start as int, arows@[d] as int, acols@[d] as int)
                    == ((48 + d) as u8) as char,
            forall|t: int, u: int|
                0 <= t < r && 0 <= u < ncols && '0' <= #[trigger] gchar(
                    bigl,
                    init_start as int,
                    t,
                    u,
                ) <= '9' ==> {
                    let d = gchar(bigl, init_start as int, t, u) as int - 48;
                    seen@[d] && arows@[d] == t && acols@[d] == u
                },
        decreases nrows - r,
    {
        let line = &lines[init_start + r];
        let llen = line.len();
        let mut wrow: Vec<bool> = Vec::new();
        let mut brow: Vec<char> = Vec::new();
        let mut c: usize = 0;
        while c < ncols
            invariant
                c <= ncols,
                r < nrows,
                bigl == lines.deep_view(),
                init_start + nrows == init_end,
                init_end < total,
                total == lines@.len(),
                line@ == bigl[init_start + r],
                llen == line@.len(),
                wrow@.len() == c,
                brow@.len() == c,
                seen@.len() == 10,
                arows@.len() == 10,
                acols@.len() == 10,
                forall|u: int|
                    0 <= u < c ==> (#[trigger] brow@[u] == no_box() || 'A' <= brow@[u] <= 'Z'),
                forall|u: int|
                    0 <= u < c ==> #[trigger] wrow@[u] == (gchar(bigl, init_start as int, r as int, u)
                        == '+'),
                forall|u: int|
                    0 <= u < c ==> #[trigger] brow@[u] == box_of(
                        gchar(bigl, init_start as int, r as int, u),
                    ),
                forall|t: int, u: int|
                    0 <= t < r && 0 <= u < ncols && '0' <= #[trigger] gchar(
                        bigl,
                        init_start as int,
                        t,
                        u,
                    ) <= '9' ==> {
                        let d = gchar(bigl, init_start as int, t, u) as int - 48;
                        seen@[d] && arows@[d] == t && acols@[d] == u
                    },
                forall|u: int|
                    0 <= u < c && '0' <= #[trigger] gchar(bigl, init_start as int, r as int, u)
                        <= '9' ==> {
                        let d = gchar(bigl, init_start as int, r as int, u) as int - 48;
                        seen@[d] && arows@[d] == r && acols@[d] == u
                    },
                forall|d: int|
                    0 <= d < 10 && #[trigger] seen@[d] ==> 0 <= arows@[d] <= r && 0 <= acols@[d]
                        < ncols && (arows@[d] < r || acols@[d] < c) && gchar(
                        bigl,
                        init_start as int,
                        arows@[d] as int,
                        acols@[d] as int,
                    ) == ((48 + d) as u8) as char,
            decreases ncols - c,
        {
            let ch = if c < llen {
                line[c]
            } else {
                ' '
            };
            wrow.push(ch == '+');
            if ch >= 'A' && ch <= 'Z' {
                brow.push(ch);
            } else {
                brow.push('\0');
            }
            if ch >= '0' && ch <= '9' {
                let dd = (ch as u32 - 48) as usize;
                if seen[dd] {
                    return None;
                }
                seen[dd] = true;
                arows[dd] = r;
                acols[dd] = c;
            }
            c += 1;
        }
        walls.push(wrow);
        boxes.push(brow);
        r += 1;
    }
    // Agents must be densely numbered from 0.
    let mut num_agents: usize = 0;
    let mut d4: usize = 0;
    while d4 < 10
        invariant
            d4 <= 10,
            num_agents <= d4,
            seen@.len() == 10,
        decreases 10 - d4,
    {
        if seen[d4] {
            num_agents += 1;
        }
        d4 += 1;
    }
    let mut d5: usize = 0;
    while d5 < 10
        invariant
            d5 <= 10,
            seen@.len() == 10,
            forall|t: int| 0 <= t < d5 ==> #[trigger] seen@[t] == (t < num_agents),
        decreases 10 - d5,
    {
        if seen[d5] != (d5 < num_agents) {
            return None;
        }
        d5 += 1;
    }
    let ghost arows0 = arows@;
    let ghost acols0 = acols@;
    let ghost seen0 = seen@;
    arows.truncate(num_agents);
    acols.truncate(num_agents);
    // Goal grid.
    let goal_start = init_end + 1;
    let mut gscan = goal_start;
    while gscan < total
        invariant
            goal_start <= gscan <= total,
            total == lines@.len(),
        decreases total - gscan,
    {
        if starts_with_hash(&lines[gscan]) {
            break;
        }
        gscan += 1;
    }
    if gscan >= total {
        return None;
    }
    let goal_end = gscan;
    if goal_end - goal_start > nrows {
        return None;
    }
    let mut goals: Vec<Vec<char>> = Vec::new();
    let mut gr: usize = 0;
    while gr < nrows
        invariant
            gr <= nrows,
            goal_start + nrows >= goal_end,
            goal_end < total,
            goal_start <= goal_end,
            total == lines@.len(),
            goals@.len() == gr,
            bigl == lines.deep_view(),
            forall|t: int| 0 <= t < gr ==> (#[trigger] goals@[t]@).len() == ncols,
            forall|t: int, u: int|
                0 <= t < gr && 0 <= u < ncols ==> (#[trigger] goals@[t]@[u] == no_box() || ('A'
                    <= goals@[t]@[u] <= 'Z') || ('0' <= goals@[t]@[u] <= '9')),
            forall|t: int, u: int|
                0 <= t < gr && 0 <= u < ncols ==> #[trigger] goals@[t]@[u] == (if t < goal_end
                    - goal_start {
                    goal_of(gchar(bigl, goal_start as int, t, u))
                } else {
                    no_box()
                }),
        decreases nrows - gr,
    {
        let mut grow: Vec<char> = Vec::new();
        if gr < goal_end - goal_start {
            let line = &lines[goal_start + gr];
            let llen = line.len();
            if trimmed_len(line) > ncols {
                return None;
            }
            let mut c: usize = 0;
            while c < ncols
                invariant
                    c <= ncols,
                    gr < nrows,
                    gr < goal_end - goal_start,
                    goal_start <= goal_end,
                    goal_end < total,
                    total == lines@.len(),
                    bigl == lines.deep_view(),
                    line@ == bigl[goal_start + gr],
                    llen == line@.len(),
                    grow@.len() == c,
                    forall|u: int|
                        0 <= u < c ==> (#[trigger] grow@[u] == no_box() || ('A' <= grow@[u]
                            <= 'Z') || ('0' <= grow@[u] <= '9')),
                    forall|u: int|
                        0 <= u < c ==> #[trigger] grow@[u] == goal_of(
                            gchar(bigl, goal_start as int, gr as int, u),
                        ),
                decreases ncols - c,
            {
                let ch = if c < llen {
                    line[c]
                } else {
                    ' '
                };
                if (ch >= '0' && ch <= '9') || (ch >= 'A' && ch <= 'Z') {
                    grow.push(ch);
                } else {
                    grow.push('\0');
                }
                c += 1;
            }
        } else {
            let mut c: usize = 0;
            while c < ncols
                invariant
                    c <= ncols,
                    grow@.len() == c,
                    forall|u: int| 0 <= u < c ==> #[trigger] grow@[u] == no_box(),
                decreases ncols - c,
            {
                grow.push('\0');
                c += 1;
            }
        }
        goals.push(grow);
        gr += 1;
    }
    // Validation: the constructed grids must satisfy every state invariant.
    let ghost m = model_of(
        arows@,
        acols@,
        agent_colors.deep_view(),
        walls.deep_view(),
        boxes.deep_view(),
        box_colors.deep_view(),
        goals.deep_view(),
    );
    proof {
        assert(m.n_rows() == nrows);
        assert(m.n_cols() == ncols);
        assert(m.n_agents() == num_agents);
    }
    // Border walls.
    let mut bc: usize = 0;
    while bc < ncols
        invariant
            bc <= ncols,
            walls@.len() == nrows,
            nrows >= 1,
            forall|t: int| 0 <= t < nrows ==> (#[trigger] walls@[t]@).len() == ncols,
            m.walls == walls.deep_view(),
            m.n_rows() == nrows,
            m.n_cols() == ncols,
            forall|u: int| 0 <= u < bc ==> #[trigger] m.wall_at(0, u),
            forall|u: int| 0 <= u < bc ==> #[trigger] m.wall_at(nrows - 1, u),
        decreases ncols - bc,
    {
        if !walls[0][bc] || !walls[nrows - 1][bc] {
            return None;
        }
        bc += 1;
    }
    let mut br: usize = 0;
    while br < nrows
        invariant
            br <= nrows,
            walls@.len() == nrows,
            nrows >= 1,
            ncols >= 1,
            forall|t: int| 0 <= t < nrows ==> (#[trigger] walls@[t]@).len() == ncols,
            m.walls == walls.deep_view(),
            m.n_rows() == nrows,
            m.n_cols() == ncols,
            forall|u: int| 0 <= u < br ==> #[trigger] m.wall_at(u, 0),
            forall|u: int| 0 <= u < br ==> #[trigger] m.wall_at(u, ncols - 1),
        decreases nrows - br,
    {
        if !walls[br][0] || !walls[br][ncols - 1] {
            return None;
        }
        br += 1;
    }
    // Boxes never sit on walls.
    let mut vr: usize = 0;
    while vr < nrows
        invariant
            vr <= nrows,
            walls@.len() == nrows,
            boxes@.len() == nrows,
            forall|t: int| 0 <= t < nrows ==> (#[trigger] walls@[t]@).len() == ncols,
            forall|t: int| 0 <= t < nrows ==> (#[trigger] boxes@[t]@).len() == ncols,
            m.walls == walls.deep_view(),
            m.boxes == boxes.deep_view(),
            m.n_rows() == nrows,
            m.n_cols() == ncols,
            forall|t: int, u: int|
                0 <= t < vr && 0 <= u < ncols ==> !(#[trigger] m.has_box(t, u) && m.wall_at(t, u)),
        decreases nrows - vr,
    {
        let mut vc: usize = 0;
        while vc < ncols
            invariant
                vc <= ncols,
                vr < nrows,
                walls@.len() == nrows,
                boxes@.len() == nrows,
                forall|t: int| 0 <= t < nrows ==> (#[trigger] walls@[t]@).len() == ncols,
                forall|t: int| 0 <= t < nrows ==> (#[trigger] boxes@[t]@).len() == ncols,
                m.walls == walls.deep_view(),
                m.boxes == boxes.deep_view(),
                m.n_rows() == nrows,
                m.n_cols() == ncols,
                forall|t: int, u: int|
                    0 <= t < vr && 0 <= u < ncols ==> !(#[trigger] m.has_box(t, u) && m.wall_at(
                        t,
                        u,
                    )),
                forall|u: int|
                    0 <= u < vc ==> !(#[trigger] m.has_box(vr as int, u) && m.wall_at(vr as int, u)),
            decreases ncols - vc,
        {
            let b = boxes[vr][vc];
            if b != '\0' && walls[vr][vc] {
                return None;
            }
            vc += 1;
        }
        vr += 1;
    }
    // Agents stand inside on free floor, pairwise apart.
    let mut ai: usize = 0;
    while ai < num_agents
        invariant
            ai <= num_agents,
            num_agents <= 10,
            arows@.len() == num_agents,
            acols@.len() == num_agents,
            walls@.len() == nrows,
            boxes@.len() == nrows,
            forall|t: int| 0 <= t < nrows ==> (#[trigger] walls@[t]@).len() == ncols,
            forall|t: int| 0 <= t < nrows ==> (#[trigger] boxes@[t]@).len() == ncols,
            m.rows == arows@.map_values(|x: usize| x as int),
            m.cols == acols@.map_values(|x: usize| x as int),
            m.walls == walls.deep_view(),
            m.boxes == boxes.deep_view(),
            m.n_rows() == nrows,
            m.n_cols() == ncols,
            m.n_agents() == num_agents,
            forall|t: int|
                0 <= t < ai ==> m.in_bounds(#[trigger] m.rows[t], m.cols[t]) && !m.wall_at(
                    m.rows[t],
                    m.cols[t],
                ) && !m.has_box(m.rows[t], m.cols[t]),
            forall|t: int, u: int|
                0 <= t < ai && 0 <= u < ai && t != u ==> !(#[trigger] m.rows[t] == #[trigger] m.rows[u]
                    && m.cols[t] == m.cols[u]),
        decreases num_agents - ai,
    {
        let ar = arows[ai];
        let ac = acols[ai];
        proof {
            assert(m.rows[ai as int] == arows@[ai as int] as int);
            assert(m.cols[ai as int] == acols@[ai as int] as int);
        }
        if ar >= nrows || ac >= ncols {
            return None;
        }
        if walls[ar][ac] {
            return None;
        }
        let b = boxes[ar][ac];
        if b != '\0' {
            return None;
        }
        let mut aj: usize = 0;
        while aj < ai
            invariant
                aj <= ai,
                ai < num_agents,
                arows@.len() == num_agents,
                acols@.len() == num_agents,
                ar == arows@[ai as int],
                ac == acols@[ai as int],
                m.rows == arows@.map_values(|x: usize| x as int),
                m.cols == acols@.map_values(|x: usize| x as int),
                forall|u: int|
                    0 <= u < aj ==> !(#[trigger] m.rows[u] == m.rows[ai as int] && m.cols[u]
                        == m.cols[ai as int]),
            decreases ai - aj,
        {
            proof {
                assert(m.rows[aj as int] == arows@[aj as int] as int);
                assert(m.cols[aj as int] == acols@[aj as int] as int);
            }
            if arows[aj] == ar && acols[aj] == ac {
                return None;
            }
            aj += 1;
        }
        proof {
            assert forall|u: int|
                0 <= u < ai implies !(#[trigger] m.rows[u] == m.rows[ai as int] && m.cols[u]
                    == m.cols[ai as int]) by {
                assert(m.rows[u] == arows@[u] as int);
                assert(m.cols[u] == acols@[u] as int);
            }
        }
        ai += 1;
    }
    proof {
        assert forall|t: int, u: int|
            0 <= t < m.n_agents() && 0 <= u < m.n_agents() && t != u implies !(
        #[trigger] m.rows[t] == #[trigger] m.rows[u] && m.cols[t] == m.cols[u]) by {
        }
        assert(m.dims_ok());
        assert(m.bordered());
        assert forall|t: int, u: int|
            0 <= t < m.n_rows() && 0 <= u < m.n_cols() implies (#[trigger] m.boxes[t][u]
            == no_box() || 'A' <= m.boxes[t][u] <= 'Z') by {
            assert(m.boxes[t] == boxes@[t]@);
        }
        assert forall|t: int, u: int|
            0 <= t < m.n_rows() && 0 <= u < m.n_cols() implies (#[trigger] m.goals[t][u]
            == no_box() || ('A' <= m.goals[t][u] <= 'Z') || ('0' <= m.goals[t][u] <= '9')) by {
            assert(m.goals[t] == goals@[t]@);
        }
        assert(m.cells_ok());
        assert forall|t: int, u: int| m.has_box(t, u) implies !m.wall_at(t, u) by {
        }
        assert(m.placement_ok());
        assert(m.wf());
        let ib = init_start as int;
        let gb = goal_start as int;
        let gcnt = goal_end - goal_start;
        assert forall|rr: int, cc: int|
            0 <= rr < m.n_rows() && 0 <= cc < m.n_cols() implies #[trigger] m.wall_at(rr, cc) == (
        gchar(bigl, ib, rr, cc) == '+') by {
            assert(m.walls[rr] == walls@[rr]@);
        }
        assert forall|rr: int, cc: int|
            0 <= rr < m.n_rows() && 0 <= cc < m.n_cols() implies #[trigger] m.box_at(rr, cc)
            == box_of(gchar(bigl, ib, rr, cc)) by {
            assert(m.boxes[rr] == boxes@[rr]@);
        }
        assert forall|rr: int, cc: int|
            0 <= rr < m.n_rows() && 0 <= cc < m.n_cols() implies #[trigger] m.goals[rr][cc] == (
        if rr < gcnt {
            goal_of(gchar(bigl, gb, rr, cc))
        } else {
            no_box()
        }) by {
            assert(m.goals[rr] == goals@[rr]@);
        }
        assert forall|rr: int, cc: int|
            0 <= rr < m.n_rows() && 0 <= cc < m.n_cols() && '0' <= #[trigger] gchar(
                bigl,
                ib,
                rr,
                cc,
            ) <= '9' implies {
            let d = gchar(bigl, ib, rr, cc) as int - 48;
            d < m.n_agents() && m.rows[d] == rr && m.cols[d] == cc
        } by {
            let d = gchar(bigl, ib, rr, cc) as int - 48;
            assert(seen0[d] && arows0[d] == rr && acols0[d] == cc);
            assert(seen0[d] == (d < num_agents));
            assert(arows@[d] == arows0[d]);
            assert(acols@[d] == acols0[d]);
            assert(m.rows[d] == arows@[d] as int);
            assert(m.cols[d] == acols@[d] as int);
        }
        assert forall|i: int| 0 <= i < m.n_agents() implies gchar(
            bigl,
            ib,
            #[trigger] m.rows[i],
            m.cols[i],
        ) == ((48 + i) as u8) as char by {
            assert(seen0[i] == (i < num_agents));
            assert(arows@[i] == arows0[i]);
            assert(acols@[i] == acols0[i]);
            assert(m.rows[i] == arows@[i] as int);
            assert(m.cols[i] == acols@[i] as int);
        }
        assert(level_matches(bigl, ib, gb, gcnt as int, m));
        assert(m.agent_colors =~= agent_colors@);
        assert(m.box_colors =~= box_colors@);
        assert(colors_match(bigl, cb, m));
    }
    Some(
        State::new(arows, acols, agent_colors, walls, boxes, box_colors, goals),
    )
}

} // verus!
