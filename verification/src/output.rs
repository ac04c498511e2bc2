use vstd::prelude::*;

verus! {

/// A piece of text for one of the two output streams, with or without a
/// line break after it.
#[derive(Clone, Debug)]
pub enum Output {
    StdErr(Vec<char>),
    StdErrLn(Vec<char>),
    StdOut(Vec<char>),
    StdOutLn(Vec<char>),
}

/// An output taken by the view of its text.
pub enum OutputView {
    StdErr(Seq<char>),
    StdErrLn(Seq<char>),
    StdOut(Seq<char>),
    StdOutLn(Seq<char>),
}

impl View for Output {
    type V = OutputView;

    open spec fn view(&self) -> OutputView {
        match self {
            Output::StdErr(s) => OutputView::StdErr(s@),
            Output::StdErrLn(s) => OutputView::StdErrLn(s@),
            Output::StdOut(s) => OutputView::StdOut(s@),
            Output::StdOutLn(s) => OutputView::StdOutLn(s@),
        }
    }
}

/// The outputs of a list, each by its view.
pub open spec fn outputs_view(v: Seq<Output>) -> Seq<OutputView> {
    v.map_values(|o: Output| o@)
}

/// The decimal digit for `d` (below ten).
pub open spec fn digit_char(d: nat) -> char {
    if d == 0 {
        '0'
    } else if d == 1 {
        '1'
    } else if d == 2 {
        '2'
    } else if d == 3 {
        '3'
    } else if d == 4 {
        '4'
    } else if d == 5 {
        '5'
    } else if d == 6 {
        '6'
    } else if d == 7 {
        '7'
    } else if d == 8 {
        '8'
    } else {
        '9'
    }
}

/// The decimal text of a natural number, without leading zeros.
pub open spec fn spec_decimal(n: nat) -> Seq<char>
    decreases n,
{
    if n < 10 {
        seq![digit_char(n)]
    } else {
        spec_decimal(n / 10).push(digit_char(n % 10))
    }
}

/// The digit for a number below ten.
pub fn digit(d: u64) -> (res: char)
    requires
        d < 10,
    ensures
        res == digit_char(d as nat),
{
    if d == 0 {
        '0'
    } else if d == 1 {
        '1'
    } else if d == 2 {
        '2'
    } else if d == 3 {
        '3'
    } else if d == 4 {
        '4'
    } else if d == 5 {
        '5'
    } else if d == 6 {
        '6'
    } else if d == 7 {
        '7'
    } else if d == 8 {
        '8'
    } else {
        '9'
    }
}

/// The decimal text of a number.
pub fn decimal_chars(n: u64) -> (res: Vec<char>)
    ensures
        res@ == spec_decimal(n as nat),
    decreases n,
{
    if n < 10 {
        vec![digit(n)]
    } else {
        let mut out = decimal_chars(n / 10);
        out.push(digit(n % 10));
        out
    }
}

/// The characters of `b` after those of `a`, as a new list.
pub fn concat_chars(a: &Vec<char>, b: &Vec<char>) -> (res: Vec<char>)
    ensures
        res@ == a@ + b@,
{
    let mut out = crate::text::copy_chars(a);
    crate::text::append_chars(&mut out, b);
    out
}

/// The lines that outputs make when shown one after another: an output that
/// ends its line is a line of its own; one that does not is added to the
/// line before it, unless that line was ended, in which case it begins a
/// new one. `fresh` says whether the last line was ended.
pub open spec fn render_from(outs: Seq<OutputView>, lines: Seq<Seq<char>>, fresh: bool) -> Seq<Seq<char>>
    decreases outs.len(),
{
    if outs.len() == 0 {
        lines
    } else {
        let rest = outs.drop_first();
        match outs[0] {
            OutputView::StdErrLn(s) => render_from(rest, lines.push(s), true),
            OutputView::StdOutLn(s) => render_from(rest, lines.push(s), true),
            OutputView::StdErr(s) => if fresh || lines.len() == 0 {
                render_from(rest, lines.push(s), false)
            } else {
                render_from(rest, lines.update(lines.len() - 1, lines.last() + s), false)
            },
            OutputView::StdOut(s) => if fresh || lines.len() == 0 {
                render_from(rest, lines.push(s), false)
            } else {
                render_from(rest, lines.update(lines.len() - 1, lines.last() + s), false)
            },
        }
    }
}

/// The lines that a list of outputs makes, from the start.
pub open spec fn spec_render_output(outs: Seq<OutputView>) -> Seq<Seq<char>> {
    render_from(outs, Seq::empty(), true)
}

/// The texts of a list of lines.
pub open spec fn lines_view(v: Seq<Vec<char>>) -> Seq<Seq<char>> {
    v.map_values(|t: Vec<char>| t@)
}

/// Groups outputs into the lines they make when shown one after another.
pub fn render_output(outputs: Vec<Output>) -> (res: Vec<Vec<char>>)
    ensures
        lines_view(res@) == spec_render_output(outputs_view(outputs@)),
{
    let ghost outs = outputs_view(outputs@);
    let mut buffer: Vec<Vec<char>> = Vec::new();
    let mut fresh = true;
    let mut i: usize = 0;
    proof {
        assert(outs.skip(0) =~= outs);
        assert(lines_view(buffer@) =~= Seq::<Seq<char>>::empty());
    }
    while i < outputs.len()
        invariant
            i <= outputs.len(),
            outs == outputs_view(outputs@),
            outs.len() == outputs@.len(),
            !fresh ==> buffer@.len() > 0,
            spec_render_output(outs) == render_from(outs.skip(i as int), lines_view(buffer@), fresh),
        decreases outputs.len() - i,
    {
        let ghost before = lines_view(buffer@);
        proof {
            assert(outs.skip(i as int)[0] == outputs@[i as int]@);
            assert(outs.skip(i as int).drop_first() =~= outs.skip(i + 1));
        }
        match &outputs[i] {
            Output::StdErrLn(s) | Output::StdOutLn(s) => {
                buffer.push(crate::text::copy_chars(s));
                fresh = true;
                proof {
                    assert(lines_view(buffer@) =~= before.push(s@));
                }
            },
            Output::StdErr(s) | Output::StdOut(s) => {
                if fresh {
                    buffer.push(crate::text::copy_chars(s));
                    proof {
                        assert(lines_view(buffer@) =~= before.push(s@));
                    }
                } else {
                    let last = buffer.len() - 1;
                    let mut line = buffer.remove(last);
                    crate::text::append_chars(&mut line, s);
                    buffer.push(line);
                    proof {
                        assert(lines_view(buffer@) =~= before.update(before.len() - 1, before.last() + s@));
                    }
                }
                fresh = false;
            },
        }
        i = i + 1;
    }
    proof {
        assert(outs.skip(i as int) =~= Seq::<OutputView>::empty());
    }
    buffer
}

} // verus!
