//! Rendering packed lines back to text.
use vstd::prelude::*;
use vstd::string::*;
use crate::words::wv;
use crate::model::{lemma_render_line_push, lemma_render_lines_push, lv, render_line, render_lines};

verus! {

/// Renders packed lines as text: each line's words joined by single
/// spaces, the lines joined by single line breaks, with no trailing break.
pub fn render(lines: &Vec<Vec<String>>) -> (out: String)
    ensures
        out@ == render_lines(lv(lines@)),
{
    let mut out = String::new();
    let mut li: usize = 0;
    proof {
        assert(lv(lines@).take(0) =~= Seq::<Seq<Seq<char>>>::empty());
    }
    while li < lines.len()
        invariant
            li <= lines@.len(),
            out@ == render_lines(lv(lines@).take(li as int)),
        decreases lines@.len() - li,
    {
        if li > 0 {
            out.append("\n");
        }
        let ghost base = out@;
        let line: &Vec<String> = &lines[li];
        let mut wi: usize = 0;
        proof {
            assert(wv(line@).take(0) =~= Seq::<Seq<char>>::empty());
            assert(base + render_line(wv(line@).take(0)) =~= base);
        }
        while wi < line.len()
            invariant
                wi <= line@.len(),
                line@ == lines@[li as int]@,
                li < lines@.len(),
                out@ == base + render_line(wv(line@).take(wi as int)),
            decreases line@.len() - wi,
        {
            if wi > 0 {
                out.append(" ");
            }
            out.append(line[wi].as_str());
            proof {
                reveal_strlit(" ");
                assert(" "@ =~= seq![' ']);
                lemma_render_line_push(wv(line@).take(wi as int), wv(line@)[wi as int]);
                assert(wv(line@).take(wi + 1) =~= wv(line@).take(wi as int).push(
                    wv(line@)[wi as int],
                ));
                assert(wv(line@)[wi as int] == line@[wi as int]@);
                if wi > 0 {
                    assert(base + (render_line(wv(line@).take(wi as int)) + seq![' ']
                        + wv(line@)[wi as int]) =~= ((base + render_line(
                        wv(line@).take(wi as int),
                    )) + seq![' ']) + wv(line@)[wi as int]);
                } else {
                    assert(render_line(wv(line@).take(0)) =~= Seq::<char>::empty());
                }
            }
            wi += 1;
        }
        proof {
            reveal_strlit("\n");
            assert("\n"@ =~= seq!['\n']);
            assert(wv(line@).take(line@.len() as int) =~= wv(line@));
            lemma_render_lines_push(lv(lines@).take(li as int), wv(line@));
            assert(lv(lines@).take(li + 1) =~= lv(lines@).take(li as int).push(
                lv(lines@)[li as int],
            ));
            assert(lv(lines@)[li as int] == wv(line@));
            if li > 0 {
                assert(base =~= render_lines(lv(lines@).take(li as int)) + seq!['\n']);
                assert((render_lines(lv(lines@).take(li as int)) + seq!['\n']) + render_line(
                    wv(line@),
                ) =~= render_lines(lv(lines@).take(li as int)) + seq!['\n'] + render_line(
                    wv(line@),
                ));
            }
        }
        li += 1;
    }
    proof {
        assert(lv(lines@).take(lines@.len() as int) =~= lv(lines@));
    }
    out
}

} // verus!
