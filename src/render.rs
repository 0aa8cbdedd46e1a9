//! The render engine: a single pass over a token stream with an explicit
//! stack of quoting frames, writing to a [`Formatter`]. Quoting and
//! interpolation go through the hooks of the target language `L`.

use vstd::prelude::*;
use crate::fmt::{
    indentation_out, join_lines, line_out, lines_of, push_out, room, space_out, write_out,
    Formatter, Out,
};
use crate::frames::{frames_last, frames_new, frames_of, frames_pop, frames_push, Frame, MAX_FRAMES};
use crate::js::item_text;
use crate::lang::Lang;
use crate::tokens::{is_break, line_items, push_items, toks_of, Item, Tok};

verus! {

/// The frame a render pass starts with: outside any quote.
pub open spec fn base_frame() -> Frame {
    (false, false, false)
}

/// What a render pass of `s` does from position `i`, with the sink in state
/// `o` and the quoting frames `fr`: the final state of the sink, or `None`
/// on a formatting fault (a quote or interpolation out of place).
pub open spec fn run<L: Lang>(s: Seq<Tok>, i: int, o: Out, fr: Seq<Frame>) -> Option<Out>
    decreases s.len() - i,
{
    if i < 0 || i >= s.len() || fr.len() == 0 {
        Some(o)
    } else {
        let top = fr.last();
        let (in_quote, has_eval, end_on_eval) = top;
        match s[i] {
            Tok::Registered(_) => run::<L>(s, i + 1, o, fr),
            Tok::Literal(t) => run::<L>(
                s,
                i + 1,
                write_out(
                    o,
                    if in_quote {
                        L::quoted_text(t)
                    } else {
                        t
                    },
                ),
                fr,
            ),
            Tok::OpenQuote(e) => if !in_quote {
                run::<L>(s, i + 1, write_out(o, L::open_quote(e)), fr.drop_last().push((true, e, end_on_eval)))
            } else {
                None
            },
            Tok::CloseQuote => if in_quote {
                run::<L>(
                    s,
                    i + 1,
                    write_out(o, L::close_quote(has_eval)),
                    fr.drop_last().push((false, false, end_on_eval)),
                )
            } else {
                None
            },
            Tok::LangBox(x) => run::<L>(s, i + 1, write_out(o, item_text(x)), fr),
            Tok::Push => run::<L>(s, i + 1, push_out(o), fr),
            Tok::Line => run::<L>(s, i + 1, line_out(o), fr),
            Tok::Space => run::<L>(s, i + 1, space_out(o), fr),
            Tok::Indentation(n) => run::<L>(s, i + 1, indentation_out(o, n), fr),
            Tok::OpenEval => if in_quote {
                if i + 2 < s.len() && s[i + 1] is Literal && s[i + 2] is CloseEval {
                    run::<L>(s, i + 3, write_out(o, L::eval_literal(s[i + 1]->Literal_0)), fr)
                } else {
                    run::<L>(s, i + 1, write_out(o, L::eval_start()), fr.push((false, false, true)))
                }
            } else {
                None
            },
            Tok::CloseEval => if end_on_eval {
                run::<L>(s, i + 1, write_out(o, L::eval_end()), fr.drop_last())
            } else {
                None
            },
        }
    }
}

/// The state the sink is left in by a render pass of `s` from position `i`:
/// at the end of the stream, or, on a formatting fault, as it was before the
/// faulty item. What was written is never rolled back.
pub open spec fn run_out<L: Lang>(s: Seq<Tok>, i: int, o: Out, fr: Seq<Frame>) -> Out
    decreases s.len() - i,
{
    if i < 0 || i >= s.len() || fr.len() == 0 {
        o
    } else {
        let top = fr.last();
        let (in_quote, has_eval, end_on_eval) = top;
        match s[i] {
            Tok::Registered(_) => run_out::<L>(s, i + 1, o, fr),
            Tok::Literal(t) => run_out::<L>(
                s,
                i + 1,
                write_out(
                    o,
                    if in_quote {
                        L::quoted_text(t)
                    } else {
                        t
                    },
                ),
                fr,
            ),
            Tok::OpenQuote(e) => if !in_quote {
                run_out::<L>(s, i + 1, write_out(o, L::open_quote(e)), fr.drop_last().push((true, e, end_on_eval)))
            } else {
                o
            },
            Tok::CloseQuote => if in_quote {
                run_out::<L>(
                    s,
                    i + 1,
                    write_out(o, L::close_quote(has_eval)),
                    fr.drop_last().push((false, false, end_on_eval)),
                )
            } else {
                o
            },
            Tok::LangBox(x) => run_out::<L>(s, i + 1, write_out(o, item_text(x)), fr),
            Tok::Push => run_out::<L>(s, i + 1, push_out(o), fr),
            Tok::Line => run_out::<L>(s, i + 1, line_out(o), fr),
            Tok::Space => run_out::<L>(s, i + 1, space_out(o), fr),
            Tok::Indentation(n) => run_out::<L>(s, i + 1, indentation_out(o, n), fr),
            Tok::OpenEval => if in_quote {
                if i + 2 < s.len() && s[i + 1] is Literal && s[i + 2] is CloseEval {
                    run_out::<L>(s, i + 3, write_out(o, L::eval_literal(s[i + 1]->Literal_0)), fr)
                } else {
                    run_out::<L>(s, i + 1, write_out(o, L::eval_start()), fr.push((false, false, true)))
                }
            } else {
                o
            },
            Tok::CloseEval => if end_on_eval {
                run_out::<L>(s, i + 1, write_out(o, L::eval_end()), fr.drop_last())
            } else {
                o
            },
        }
    }
}

/// The result of rendering `s` into a sink in state `o`.
pub open spec fn render<L: Lang>(s: Seq<Tok>, o: Out) -> Option<Out> {
    run::<L>(s, 0, o, seq![base_frame()])
}

/// The sink after rendering `s` into a sink in state `o`, on success or on
/// a fault.
pub open spec fn render_out<L: Lang>(s: Seq<Tok>, o: Out) -> Out {
    run_out::<L>(s, 0, o, seq![base_frame()])
}

/// A pass that succeeds leaves the sink in its final state.
pub proof fn lemma_run_out<L: Lang>(s: Seq<Tok>, i: int, o: Out, fr: Seq<Frame>)
    ensures
        run::<L>(s, i, o, fr) is Some ==> run::<L>(s, i, o, fr) == Some(run_out::<L>(s, i, o, fr)),
    decreases s.len() - i,
{
    if i < 0 || i >= s.len() || fr.len() == 0 {
    } else {
        let (in_quote, has_eval, end_on_eval) = fr.last();
        match s[i] {
            Tok::Registered(_) => lemma_run_out::<L>(s, i + 1, o, fr),
            Tok::Literal(t) => lemma_run_out::<L>(
                s,
                i + 1,
                write_out(
                    o,
                    if in_quote {
                        L::quoted_text(t)
                    } else {
                        t
                    },
                ),
                fr,
            ),
            Tok::OpenQuote(e) => lemma_run_out::<L>(
                s,
                i + 1,
                write_out(o, L::open_quote(e)),
                fr.drop_last().push((true, e, end_on_eval)),
            ),
            Tok::CloseQuote => lemma_run_out::<L>(
                s,
                i + 1,
                write_out(o, L::close_quote(has_eval)),
                fr.drop_last().push((false, false, end_on_eval)),
            ),
            Tok::LangBox(v) => lemma_run_out::<L>(s, i + 1, write_out(o, item_text(v)), fr),
            Tok::Push => lemma_run_out::<L>(s, i + 1, push_out(o), fr),
            Tok::Line => lemma_run_out::<L>(s, i + 1, line_out(o), fr),
            Tok::Space => lemma_run_out::<L>(s, i + 1, space_out(o), fr),
            Tok::Indentation(n) => lemma_run_out::<L>(s, i + 1, indentation_out(o, n), fr),
            Tok::OpenEval => {
                if i + 2 < s.len() && s[i + 1] is Literal && s[i + 2] is CloseEval {
                    lemma_run_out::<L>(
                        s,
                        i + 3,
                        write_out(o, L::eval_literal(s[i + 1]->Literal_0)),
                        fr,
                    );
                } else {
                    lemma_run_out::<L>(s, i + 1, write_out(o, L::eval_start()), fr.push((false, false, true)));
                }
            },
            Tok::CloseEval => lemma_run_out::<L>(s, i + 1, write_out(o, L::eval_end()), fr.drop_last()),
        }
    }
}

/// Render the items to the sink. On a formatting fault the pass stops, and
/// what was written stays written.
#[verifier::rlimit(60)]
pub(crate) fn render_items<L: Lang>(items: &Vec<Item>, out: &mut Formatter) -> (r: Result<(), ()>)
    requires
        items@.len() < MAX_FRAMES,
        room(old(out)@, items@.len() as int),
    ensures
        r is Ok <==> render::<L>(toks_of(items@), old(out)@) is Some,
        final(out)@ == render_out::<L>(toks_of(items@), old(out)@),
{
    let ghost s = toks_of(items@);
    let ghost goal = render::<L>(s, out@);
    let ghost o0 = out@;
    let mut stack = frames_new();
    frames_push(&mut stack, (false, false, false));
    proof {
        assert(frames_of(stack) =~= seq![base_frame()]);
    }
    let n = items.len();
    let mut i: usize = 0;
    while i < n
        invariant
            n == s.len(),
            s == toks_of(items@),
            n < MAX_FRAMES,
            i <= n,
            frames_of(stack).len() <= i + 1,
            out@.spaces <= o0.spaces + i,
            o0.indent - 32768 * i <= out@.indent <= o0.indent + 32768 * i,
            room(o0, n as int),
            o0 == old(out)@,
            goal == render::<L>(s, o0),
            goal == run::<L>(s, i as int, out@, frames_of(stack)),
            render_out::<L>(s, o0) == run_out::<L>(s, i as int, out@, frames_of(stack)),
        decreases n - i,
    {
        let top = match frames_last(&stack) {
            Some(f) => f,
            None => {
                return Ok(());
            },
        };
        let (in_quote, has_eval, end_on_eval) = top;
        assert(s[i as int] == items@[i as int]@);
        match &items[i] {
            Item::Registered(_) => {
                i = i + 1;
            },
            Item::Literal(t) => {
                if in_quote {
                    let q = L::write_quoted(t.as_str());
                    out.write_str(q.as_str());
                } else {
                    out.write_str(t.as_str());
                }
                i = i + 1;
            },
            Item::OpenQuote(e) => {
                if in_quote {
                    return Err(());
                }
                out.write_str(L::open_quote_str(*e));
                frames_pop(&mut stack);
                frames_push(&mut stack, (true, *e, end_on_eval));
                i = i + 1;
            },
            Item::CloseQuote => {
                if !in_quote {
                    return Err(());
                }
                out.write_str(L::close_quote_str(has_eval));
                frames_pop(&mut stack);
                frames_push(&mut stack, (false, false, end_on_eval));
                i = i + 1;
            },
            Item::LangBox(x) => {
                out.write_str(x.text());
                i = i + 1;
            },
            Item::Push => {
                out.push();
                i = i + 1;
            },
            Item::Line => {
                out.line();
                i = i + 1;
            },
            Item::Space => {
                out.space();
                i = i + 1;
            },
            Item::Indentation(d) => {
                out.indentation(*d);
                i = i + 1;
            },
            Item::OpenEval => {
                if !in_quote {
                    return Err(());
                }
                let mut direct = false;
                                if i + 2 < n {
                    assert(s[i + 1] == items@[i + 1]@);
                    assert(s[i + 2] == items@[i + 2]@);
                    if let Item::Literal(lit) = &items[i + 1] {
                        if let Item::CloseEval = &items[i + 2] {
                            let q = L::eval_literal_string(lit.as_str());
                            out.write_str(q.as_str());
                            direct = true;
                            i = i + 3;
                        }
                    }
                }
                if !direct {
                    out.write_str(L::eval_start_str());
                    frames_push(&mut stack, (false, false, true));
                    i = i + 1;
                }
            },
            Item::CloseEval => {
                if !end_on_eval {
                    return Err(());
                }
                out.write_str(L::eval_end_str());
                frames_pop(&mut stack);
                i = i + 1;
            },
        }
    }
    Ok(())
}

} // verus!

verus! {

/// Two render results that are both faults, or both sinks with the same
/// lines.
pub open spec fn same_lines(a: Option<Out>, b: Option<Out>) -> bool {
    match (a, b) {
        (Some(x), Some(y)) => lines_of(x) == lines_of(y),
        (None, None) => true,
        _ => false,
    }
}

/// A layout directive that writes nothing by itself.
pub open spec fn is_layout(x: Tok) -> bool {
    x is Push || x is Line || x is Space || x is Indentation
}

/// A layout directive after the last item leaves the rendered lines as they were.
pub proof fn lemma_run_trailing_layout<L: Lang>(s: Seq<Tok>, x: Tok, i: int, o: Out, fr: Seq<Frame>)
    requires
        is_layout(x),
        0 <= i,
    ensures
        same_lines(run::<L>(s.push(x), i, o, fr), run::<L>(s, i, o, fr)),
    decreases s.len() - i,
{
    let sp = s.push(x);
    if i >= s.len() || fr.len() == 0 {
        if i == s.len() && fr.len() > 0 {
            assert(sp[i] == x);
            reveal_with_fuel(run, 2);
        }
    } else {
        assert(sp[i] == s[i]);
        let (in_quote, has_eval, end_on_eval) = fr.last();
        match s[i] {
            Tok::Registered(_) => lemma_run_trailing_layout::<L>(s, x, i + 1, o, fr),
            Tok::Literal(t) => lemma_run_trailing_layout::<L>(
                s,
                x,
                i + 1,
                write_out(
                    o,
                    if in_quote {
                        L::quoted_text(t)
                    } else {
                        t
                    },
                ),
                fr,
            ),
            Tok::OpenQuote(e) => if !in_quote {
                lemma_run_trailing_layout::<L>(
                    s,
                    x,
                    i + 1,
                    write_out(o, L::open_quote(e)),
                    fr.drop_last().push((true, e, end_on_eval)),
                );
            },
            Tok::CloseQuote => if in_quote {
                lemma_run_trailing_layout::<L>(
                    s,
                    x,
                    i + 1,
                    write_out(o, L::close_quote(has_eval)),
                    fr.drop_last().push((false, false, end_on_eval)),
                );
            },
            Tok::LangBox(v) => lemma_run_trailing_layout::<L>(s, x, i + 1, write_out(o, item_text(v)), fr),
            Tok::Push => lemma_run_trailing_layout::<L>(s, x, i + 1, push_out(o), fr),
            Tok::Line => lemma_run_trailing_layout::<L>(s, x, i + 1, line_out(o), fr),
            Tok::Space => lemma_run_trailing_layout::<L>(s, x, i + 1, space_out(o), fr),
            Tok::Indentation(n) => lemma_run_trailing_layout::<L>(s, x, i + 1, indentation_out(o, n), fr),
            Tok::OpenEval => if in_quote {
                if i + 2 < s.len() && s[i + 1] is Literal && s[i + 2] is CloseEval {
                    assert(sp[i + 1] == s[i + 1] && sp[i + 2] == s[i + 2]);
                    lemma_run_trailing_layout::<L>(
                        s,
                        x,
                        i + 3,
                        write_out(o, L::eval_literal(s[i + 1]->Literal_0)),
                        fr,
                    );
                } else {
                    if i + 2 < sp.len() {
                        assert(sp[i + 1] == s[i + 1] || i + 1 == s.len());
                        assert(i + 2 == s.len() ==> sp[i + 2] == x);
                        assert(i + 2 < s.len() ==> sp[i + 2] == s[i + 2] && sp[i + 1] == s[i + 1]);
                    }
                    lemma_run_trailing_layout::<L>(
                        s,
                        x,
                        i + 1,
                        write_out(o, L::eval_start()),
                        fr.push((false, false, true)),
                    );
                }
            },
            Tok::CloseEval => if end_on_eval {
                lemma_run_trailing_layout::<L>(s, x, i + 1, write_out(o, L::eval_end()), fr.drop_last());
            },
        }
    }
}

/// A push or a line at the end of a stream, with nothing after it, adds
/// nothing visible: the stream renders to the same lines, or to the same
/// fault, as without it.
pub proof fn lemma_trailing_break_invisible<L: Lang>(s: Seq<Tok>, o: Out)
    ensures
        same_lines(render::<L>(push_items(s), o), render::<L>(s, o)),
        same_lines(render::<L>(line_items(s), o), render::<L>(s, o)),
        render::<L>(push_items(s), o) is Some ==> join_lines(lines_of(render::<L>(push_items(s), o)->0))
            == join_lines(lines_of(render::<L>(s, o)->0)),
        render::<L>(line_items(s), o) is Some ==> join_lines(lines_of(render::<L>(line_items(s), o)->0))
            == join_lines(lines_of(render::<L>(s, o)->0)),
{
    let base = seq![base_frame()];
    if !(s.len() > 0 && is_break(s.last())) {
        lemma_run_trailing_layout::<L>(s, Tok::Push, 0, o, base);
        lemma_run_trailing_layout::<L>(s, Tok::Line, 0, o, base);
    } else {
        let d = s.drop_last();
        assert(d.push(s.last()) =~= s);
        lemma_run_trailing_layout::<L>(d, Tok::Line, 0, o, base);
        lemma_run_trailing_layout::<L>(d, s.last(), 0, o, base);
    }
}

} // verus!

verus! {

/// Two streams that differ at most in what their registered items hold.
pub open spec fn same_but_registered(a: Seq<Tok>, b: Seq<Tok>) -> bool {
    &&& a.len() == b.len()
    &&& forall|i: int|
        0 <= i < a.len() ==> (#[trigger] a[i] is Registered && b[i] is Registered) || a[i] == b[i]
}

/// Registered items are never rendered: streams that differ only in them
/// render alike, also up to a fault.
pub proof fn lemma_run_registered<L: Lang>(a: Seq<Tok>, b: Seq<Tok>, i: int, o: Out, fr: Seq<Frame>)
    requires
        same_but_registered(a, b),
    ensures
        run::<L>(a, i, o, fr) == run::<L>(b, i, o, fr),
        run_out::<L>(a, i, o, fr) == run_out::<L>(b, i, o, fr),
    decreases a.len() - i,
{
    if i < 0 || i >= a.len() || fr.len() == 0 {
    } else {
        assert((a[i] is Registered && b[i] is Registered) || a[i] == b[i]);
        if i + 1 < a.len() {
            assert((a[i + 1] is Registered && b[i + 1] is Registered) || a[i + 1] == b[i + 1]);
        }
        if i + 2 < a.len() {
            assert((a[i + 2] is Registered && b[i + 2] is Registered) || a[i + 2] == b[i + 2]);
        }
        let (in_quote, has_eval, end_on_eval) = fr.last();
        match a[i] {
            Tok::Registered(_) => lemma_run_registered::<L>(a, b, i + 1, o, fr),
            Tok::Literal(t) => lemma_run_registered::<L>(
                a,
                b,
                i + 1,
                write_out(
                    o,
                    if in_quote {
                        L::quoted_text(t)
                    } else {
                        t
                    },
                ),
                fr,
            ),
            Tok::OpenQuote(e) => lemma_run_registered::<L>(
                a,
                b,
                i + 1,
                write_out(o, L::open_quote(e)),
                fr.drop_last().push((true, e, end_on_eval)),
            ),
            Tok::CloseQuote => lemma_run_registered::<L>(
                a,
                b,
                i + 1,
                write_out(o, L::close_quote(has_eval)),
                fr.drop_last().push((false, false, end_on_eval)),
            ),
            Tok::LangBox(v) => lemma_run_registered::<L>(a, b, i + 1, write_out(o, item_text(v)), fr),
            Tok::Push => lemma_run_registered::<L>(a, b, i + 1, push_out(o), fr),
            Tok::Line => lemma_run_registered::<L>(a, b, i + 1, line_out(o), fr),
            Tok::Space => lemma_run_registered::<L>(a, b, i + 1, space_out(o), fr),
            Tok::Indentation(n) => lemma_run_registered::<L>(a, b, i + 1, indentation_out(o, n), fr),
            Tok::OpenEval => {
                if i + 2 < a.len() && a[i + 1] is Literal && a[i + 2] is CloseEval {
                    lemma_run_registered::<L>(
                        a,
                        b,
                        i + 3,
                        write_out(o, L::eval_literal(a[i + 1]->Literal_0)),
                        fr,
                    );
                } else {
                    lemma_run_registered::<L>(
                        a,
                        b,
                        i + 1,
                        write_out(o, L::eval_start()),
                        fr.push((false, false, true)),
                    );
                }
            },
            Tok::CloseEval => lemma_run_registered::<L>(
                a,
                b,
                i + 1,
                write_out(o, L::eval_end()),
                fr.drop_last(),
            ),
        }
    }
}

} // verus!

verus! {

/// The sum of the indentation deltas of a stream.
pub open spec fn indent_sum(s: Seq<Tok>) -> int
    decreases s.len(),
{
    if s.len() == 0 {
        0
    } else {
        indent_sum(s.drop_last()) + if s.last() is Indentation {
            s.last()->Indentation_0
        } else {
            0
        }
    }
}

/// A stream without quotes or interpolation.
pub open spec fn unquoted(s: Seq<Tok>) -> bool {
    forall|i: int|
        0 <= i < s.len() ==> !(#[trigger] s[i] is OpenQuote || s[i] is CloseQuote || s[i] is OpenEval
            || s[i] is CloseEval)
}

proof fn lemma_indent_sum_run<L: Lang>(s: Seq<Tok>, i: int, o: Out)
    requires
        unquoted(s),
        0 <= i <= s.len(),
    ensures
        run::<L>(s, i, o, seq![base_frame()]) is Some,
        run_out::<L>(s, i, o, seq![base_frame()]).indent == o.indent + indent_sum(s) - indent_sum(
            s.take(i),
        ),
    decreases s.len() - i,
{
    let base = seq![base_frame()];
    if i == s.len() {
        assert(s.take(i) =~= s);
    } else {
        assert(!(s[i] is OpenQuote || s[i] is CloseQuote || s[i] is OpenEval || s[i] is CloseEval));
        assert(s.take(i + 1).drop_last() =~= s.take(i));
        let o2 = match s[i] {
            Tok::Literal(t) => write_out(o, t),
            Tok::LangBox(v) => write_out(o, item_text(v)),
            Tok::Push => push_out(o),
            Tok::Line => line_out(o),
            Tok::Space => space_out(o),
            Tok::Indentation(n) => indentation_out(o, n),
            _ => o,
        };
        lemma_indent_sum_run::<L>(s, i + 1, o2);
        assert(run::<L>(s, i, o, base) == run::<L>(s, i + 1, o2, base));
        assert(run_out::<L>(s, i, o, base) == run_out::<L>(s, i + 1, o2, base));
    }
}

/// Indentation composes by its net delta: rendering a stream without quotes
/// never faults, and after any prefix of it the sink holds the full signed
/// sum of the prefix's deltas. Lines are indented by that sum clamped at
/// zero (see `flush`), so a negative sum is kept and must be made up by
/// later increases before lines are indented again.
pub proof fn lemma_indent_net<L: Lang>(s: Seq<Tok>, j: int, o: Out)
    requires
        unquoted(s),
        0 <= j <= s.len(),
    ensures
        render::<L>(s, o) is Some,
        render_out::<L>(s.take(j), o).indent == o.indent + indent_sum(s.take(j)),
{
    lemma_indent_sum_run::<L>(s, 0, o);
    let t = s.take(j);
    assert(unquoted(t)) by {
        assert forall|i: int| 0 <= i < t.len() implies !(#[trigger] t[i] is OpenQuote
            || t[i] is CloseQuote || t[i] is OpenEval || t[i] is CloseEval) by {
            assert(t[i] == s[i]);
        }
    }
    lemma_indent_sum_run::<L>(t, 0, o);
    assert(t.take(0) =~= Seq::<Tok>::empty());
}

} // verus!
