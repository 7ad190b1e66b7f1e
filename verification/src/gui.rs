//! Pages that show a model, its training and a tensor.
use vstd::prelude::*;
use crate::format::Textual;
use crate::grpo;
use crate::number::Real;
use crate::optim;
use crate::optim::fraction;
use crate::tensor::Tensor;
use crate::text;
use crate::text::{
    chars_of, contains, join, owned, push_chars, push_decimal, push_text, starts_with, string_of,
};

verus! {

/// A quotient in tenths, halves rounded to the even neighbour.
pub open spec fn tenths(n: nat, d: nat) -> nat {
    let q = n * 10 / d;
    let r = n * 10 % d;
    if 2 * r > d || (2 * r == d && q % 2 == 1) {
        q + 1
    } else {
        q
    }
}

/// A quotient with one decimal place.
pub open spec fn one_place(n: nat, d: nat) -> Seq<char> {
    text::digits(tenths(n, d) / 10) + "."@ + text::digits(tenths(n, d) % 10)
}

/// Appends a quotient with one decimal place.
pub fn push_one_place(out: &mut Vec<char>, n: u64, d: u64)
    requires
        d > 1,
    ensures
        final(out)@ == old(out)@ + one_place(n as nat, d as nat),
{
    let wide: u128 = n as u128 * 10;
    let q: u128 = wide / d as u128;
    let r: u128 = wide % d as u128;
    let t: u128 = if 2 * r > d as u128 || (2 * r == d as u128 && q % 2 == 1) {
        q + 1
    } else {
        q
    };
    proof {
        let (nn, dd) = (n as int, d as int);
        assert(nn * 10 / dd <= nn * 5) by (nonlinear_arith)
            requires
                0 <= nn,
                2 <= dd,
        ;
    }
    push_decimal(out, (t / 10) as u64);
    push_text(out, ".");
    push_decimal(out, (t % 10) as u64);
    assert(out@ =~= old(out)@ + one_place(n as nat, d as nat));
}

/// A model as a row of layers.
#[derive(Debug, Clone)]
pub struct ModelDashboard {
    pub title: String,
    /// The name, the inputs and the outputs of each layer.
    pub layers: Vec<(String, usize, usize)>,
}

/// A layer as text and numbers.
pub struct Layer {
    pub name: Seq<char>,
    pub inp: nat,
    pub out: nat,
}

/// The layers as texts and numbers.
pub open spec fn layers_of(v: Seq<(String, usize, usize)>) -> Seq<Layer> {
    Seq::new(v.len(), |i: int| Layer { name: v[i].0@, inp: v[i].1 as nat, out: v[i].2 as nat })
}

pub open spec fn is_linear(name: Seq<char>) -> bool {
    text::occurs(name, "Linear"@, 0)
}

/// The parameters of the first `n` layers: weights and biases of those that are linear.
pub open spec fn parameters(v: Seq<Layer>, n: int) -> nat
    decreases n,
{
    if n <= 0 {
        0
    } else {
        parameters(v, n - 1) + (if is_linear(v[n - 1].name) {
            v[n - 1].inp * v[n - 1].out + v[n - 1].out
        } else {
            0
        })
    }
}

/// The left edge of the box of a layer.
pub open spec fn left_edge(i: int) -> nat {
    (50 + i * 210) as nat
}

/// The colour of a layer.
pub open spec fn colour(name: Seq<char>) -> Seq<char> {
    if is_linear(name) {
        "#4A90D9"@
    } else if text::holds_text(name, "ReLU"@) {
        "#D94A4A"@
    } else if text::holds_text(name, "Norm"@) {
        "#2ECC71"@
    } else {
        "#95A5A6"@
    }
}

/// The line from the layer before.
pub open spec fn line_svg(i: int) -> Seq<char> {
    "<line x1=\""@ + text::digits((left_edge(i - 1) + 160) as nat) + "\" y1=\"100\" x2=\""@
        + text::digits(left_edge(i))
        + "\" y2=\"100\" stroke=\"#555\" stroke-width=\"2\"/>"@
}

/// The box of a layer.
pub open spec fn box_svg(i: int, name: Seq<char>) -> Seq<char> {
    "<rect x=\""@ + text::digits(left_edge(i))
        + "\" y=\"70\" width=\"160\" height=\"60\" rx=\"8\" fill=\""@ + colour(name)
        + "\" stroke=\"#333\"/>"@
}

/// The name in the box.
pub open spec fn name_svg(i: int, name: Seq<char>) -> Seq<char> {
    "<text x=\""@ + text::digits((left_edge(i) + 80) as nat)
        + "\" y=\"92\" text-anchor=\"middle\" fill=\"white\" font-size=\"14\">"@ + name
        + "</text>"@
}

/// The sizes in the box.
pub open spec fn sizes_svg(i: int, l: Layer) -> Seq<char> {
    "<text x=\""@ + text::digits((left_edge(i) + 80) as nat)
        + "\" y=\"112\" text-anchor=\"middle\" fill=\"#ddd\" font-size=\"11\">"@ + text::digits(
        l.inp,
    ) + " to "@ + text::digits(l.out) + "</text>"@
}

/// All that is drawn of a layer.
pub open spec fn layer_svg(i: int, l: Layer) -> Seq<char> {
    (if i > 0 {
        line_svg(i)
    } else {
        Seq::empty()
    }) + box_svg(i, l.name) + name_svg(i, l.name) + (if l.inp > 0 {
        sizes_svg(i, l)
    } else {
        Seq::empty()
    })
}

/// All that is drawn of the first `n` layers.
pub open spec fn layers_svg(v: Seq<Layer>, n: int) -> Seq<char>
    decreases n,
{
    if n <= 0 {
        Seq::empty()
    } else {
        layers_svg(v, n - 1) + layer_svg(n - 1, v[n - 1])
    }
}

/// The top of the page.
pub open spec fn page_head(title: Seq<char>) -> Seq<char> {
    "<!DOCTYPE html><html><head><meta charset=\"utf-8\"><title>"@ + title
        + "</title><style>body{font-family:sans-serif;background:#1a1a2e;color:#eee;margin:0;padding:20px}h1{color:#e94560}.stats{display:flex;gap:20px;margin:20px 0}.stat{background:#16213e;border-radius:8px;padding:12px 20px}.stat-value{font-size:24px;font-weight:bold;color:#e94560}.stat-label{font-size:12px;color:#888}svg{max-width:100%}</style></head><body><h1>"@
        + title
}

/// The numbers on the page.
pub open spec fn page_stats(layers: nat, params: nat) -> Seq<char> {
    "</h1><div class=\"stats\"><div class=\"stat\"><div class=\"stat-value\">"@ + text::digits(
        layers,
    )
        + "</div><div class=\"stat-label\">Layers</div></div><div class=\"stat\"><div class=\"stat-value\">"@
        + text::digits(params)
        + "</div><div class=\"stat-label\">Parameters</div></div><div class=\"stat\"><div class=\"stat-value\">"@
        + one_place(params, 256) + " KB</div><div class=\"stat-label\">Size</div></div>"@
}

/// The drawing on the page.
pub open spec fn page_drawing(v: Seq<Layer>) -> Seq<char> {
    "</div><svg viewBox=\"0 0 "@ + text::digits((v.len() * 210 + 50) as nat)
        + " 200\" xmlns=\"http://www.w3.org/2000/svg\">"@ + layers_svg(v, v.len() as int)
        + "</svg></body></html>"@
}

fn line_chars(i: usize) -> (r: Vec<char>)
    requires
        0 < i,
        50 + i * 210 + 160 <= usize::MAX,
    ensures
        r@ == line_svg(i as int),
{
    let mut out: Vec<char> = Vec::new();
    push_text(&mut out, "<line x1=\"");
    push_decimal(&mut out, (50 + (i - 1) * 210 + 160) as u64);
    push_text(&mut out, "\" y1=\"100\" x2=\"");
    push_decimal(&mut out, (50 + i * 210) as u64);
    push_text(&mut out, "\" y2=\"100\" stroke=\"#555\" stroke-width=\"2\"/>");
    assert(out@ =~= line_svg(i as int));
    out
}

fn box_chars(i: usize, name: &[char]) -> (r: Vec<char>)
    requires
        50 + i * 210 + 160 <= usize::MAX,
    ensures
        r@ == box_svg(i as int, name@),
{
    let mut out: Vec<char> = Vec::new();
    push_text(&mut out, "<rect x=\"");
    push_decimal(&mut out, (50 + i * 210) as u64);
    push_text(&mut out, "\" y=\"70\" width=\"160\" height=\"60\" rx=\"8\" fill=\"");
    if starts_with(name, "Linear") {
        push_text(&mut out, "#4A90D9");
    } else if contains(name, "ReLU") {
        push_text(&mut out, "#D94A4A");
    } else if contains(name, "Norm") {
        push_text(&mut out, "#2ECC71");
    } else {
        push_text(&mut out, "#95A5A6");
    }
    push_text(&mut out, "\" stroke=\"#333\"/>");
    assert(out@ =~= box_svg(i as int, name@));
    out
}

fn name_chars(i: usize, name: &[char]) -> (r: Vec<char>)
    requires
        50 + i * 210 + 160 <= usize::MAX,
    ensures
        r@ == name_svg(i as int, name@),
{
    let mut out: Vec<char> = Vec::new();
    push_text(&mut out, "<text x=\"");
    push_decimal(&mut out, (50 + i * 210 + 80) as u64);
    push_text(
        &mut out,
        "\" y=\"92\" text-anchor=\"middle\" fill=\"white\" font-size=\"14\">",
    );
    push_chars(&mut out, name);
    push_text(&mut out, "</text>");
    assert(out@ =~= name_svg(i as int, name@));
    out
}

fn sizes_chars(i: usize, inp: usize, outputs: usize, Ghost(l): Ghost<Layer>) -> (r: Vec<char>)
    requires
        50 + i * 210 + 160 <= usize::MAX,
        l.inp == inp,
        l.out == outputs,
    ensures
        r@ == sizes_svg(i as int, l),
{
    let mut out: Vec<char> = Vec::new();
    push_text(&mut out, "<text x=\"");
    push_decimal(&mut out, (50 + i * 210 + 80) as u64);
    push_text(
        &mut out,
        "\" y=\"112\" text-anchor=\"middle\" fill=\"#ddd\" font-size=\"11\">",
    );
    push_decimal(&mut out, inp as u64);
    push_text(&mut out, " to ");
    push_decimal(&mut out, outputs as u64);
    push_text(&mut out, "</text>");
    assert(out@ =~= sizes_svg(i as int, l));
    out
}

proof fn lemma_parameters_grow(v: Seq<Layer>, m: int, n: int)
    requires
        m <= n,
    ensures
        parameters(v, m) <= parameters(v, n),
    decreases n,
{
    if m < n && n > 0 {
        lemma_parameters_grow(v, m, n - 1);
    }
}

impl ModelDashboard {
    pub open spec fn spec_layers(&self) -> Seq<Layer> {
        layers_of(self.layers@)
    }

    pub fn new(title: &str) -> (r: Self)
        ensures
            r.title@ == title@,
            r.layers@ == Seq::<(String, usize, usize)>::empty(),
    {
        ModelDashboard { title: owned(title), layers: Vec::new() }
    }

    /// The model with one more layer. How its weights are initialised is not shown.
    pub fn layer(self, name: &str, inp: usize, out: usize, _init: &str) -> (r: Self)
        ensures
            r.title == self.title,
            r.spec_layers() == self.spec_layers().push(
                Layer { name: name@, inp: inp as nat, out: out as nat },
            ),
    {
        let mut d = self;
        d.layers.push((owned(name), inp, out));
        assert(d.spec_layers() =~= self.spec_layers().push(
            Layer { name: name@, inp: inp as nat, out: out as nat },
        ));
        d
    }

    /// The page.
    pub fn render(&self) -> (r: String)
        requires
            parameters(self.spec_layers(), self.layers@.len() as int) <= usize::MAX,
            self.layers@.len() * 210 + 210 <= usize::MAX,
        ensures
            r@ == page_head(self.title@) + page_stats(
                self.layers@.len(),
                parameters(self.spec_layers(), self.layers@.len() as int),
            ) + page_drawing(self.spec_layers()),
    {
        let ghost lv = self.spec_layers();
        let n: usize = self.layers.len();
        let mut params: usize = 0;
        let mut svg: Vec<char> = Vec::new();
        for i in 0..n
            invariant
                n == self.layers@.len(),
                lv == self.spec_layers(),
                parameters(lv, n as int) <= usize::MAX,
                n * 210 + 210 <= usize::MAX,
                params == parameters(lv, i as int),
                svg@ =~= layers_svg(lv, i as int),
        {
            let name = chars_of(self.layers[i].0.as_str());
            let inp: usize = self.layers[i].1;
            let out: usize = self.layers[i].2;
            let ghost l = lv[i as int];
            assert(l == (Layer { name: name@, inp: inp as nat, out: out as nat }));
            if starts_with(&name, "Linear") {
                proof {
                    lemma_parameters_grow(lv, i + 1, n as int);
                    assert(0 <= inp * out) by (nonlinear_arith);
                }
                params = params + (inp * out + out);
            }
            let ghost before = svg@;
            let ghost mut head = Seq::<char>::empty();
            if i > 0 {
                let line = line_chars(i);
                push_chars(&mut svg, &line);
                proof {
                    head = line_svg(i as int);
                }
            }
            let part = box_chars(i, &name);
            push_chars(&mut svg, &part);
            let part = name_chars(i, &name);
            push_chars(&mut svg, &part);
            let ghost mut tail = Seq::<char>::empty();
            if inp > 0 {
                let part = sizes_chars(i, inp, out, Ghost(l));
                push_chars(&mut svg, &part);
                proof {
                    tail = sizes_svg(i as int, l);
                }
            }
            proof {
                assert(layer_svg(i as int, l) == head + box_svg(i as int, l.name) + name_svg(
                    i as int,
                    l.name,
                ) + tail);
                assert(svg@ =~= before + layer_svg(i as int, l));
            }
        }
        let mut h = self.head_chars();
        let stats = stats_chars(n, params);
        push_chars(&mut h, &stats);
        let mut d: Vec<char> = Vec::new();
        push_text(&mut d, "</div><svg viewBox=\"0 0 ");
        push_decimal(&mut d, (n * 210 + 50) as u64);
        push_text(&mut d, " 200\" xmlns=\"http://www.w3.org/2000/svg\">");
        push_chars(&mut d, &svg);
        push_text(&mut d, "</svg></body></html>");
        assert(d@ =~= page_drawing(lv));
        push_chars(&mut h, &d);
        string_of(&h)
    }

    fn head_chars(&self) -> (r: Vec<char>)
        ensures
            r@ == page_head(self.title@),
    {
        let mut h: Vec<char> = Vec::new();
        push_text(&mut h, "<!DOCTYPE html><html><head><meta charset=\"utf-8\"><title>");
        push_text(&mut h, self.title.as_str());
        push_text(
            &mut h,
            "</title><style>body{font-family:sans-serif;background:#1a1a2e;color:#eee;margin:0;padding:20px}h1{color:#e94560}.stats{display:flex;gap:20px;margin:20px 0}.stat{background:#16213e;border-radius:8px;padding:12px 20px}.stat-value{font-size:24px;font-weight:bold;color:#e94560}.stat-label{font-size:12px;color:#888}svg{max-width:100%}</style></head><body><h1>",
        );
        push_text(&mut h, self.title.as_str());
        assert(h@ =~= page_head(self.title@));
        h
    }
}

fn stats_chars(layers: usize, params: usize) -> (r: Vec<char>)
    ensures
        r@ == page_stats(layers as nat, params as nat),
{
    let mut h: Vec<char> = Vec::new();
    push_text(&mut h, "</h1><div class=\"stats\"><div class=\"stat\"><div class=\"stat-value\">");
    push_decimal(&mut h, layers as u64);
    push_text(
        &mut h,
        "</div><div class=\"stat-label\">Layers</div></div><div class=\"stat\"><div class=\"stat-value\">",
    );
    push_decimal(&mut h, params as u64);
    push_text(
        &mut h,
        "</div><div class=\"stat-label\">Parameters</div></div><div class=\"stat\"><div class=\"stat-value\">",
    );
    push_one_place(&mut h, params as u64, 256);
    push_text(&mut h, " KB</div><div class=\"stat-label\">Size</div></div>");
    assert(h@ =~= page_stats(layers as nat, params as nat));
    h
}

/// The loss over the epochs.
#[derive(Debug, Clone)]
pub struct TrainingDashboard<S> {
    pub title: String,
    pub points: Vec<(usize, S)>,
}

/// The last of the first `n` epochs.
pub open spec fn last_epoch<S>(p: Seq<(usize, S)>, n: int) -> usize
    decreases n,
{
    if n <= 1 {
        p[0].0
    } else {
        let m = last_epoch(p, n - 1);
        if p[n - 1].0 >= m {
            p[n - 1].0
        } else {
            m
        }
    }
}

/// The losses.
pub open spec fn losses<S>(p: Seq<(usize, S)>) -> Seq<S> {
    Seq::new(p.len(), |i: int| p[i].1)
}

/// The greatest of zero and the first `n` numbers.
pub open spec fn top<S: Real>(s: Seq<S>, n: int) -> S
    decreases n,
{
    if n <= 0 {
        S::spec_zero()
    } else {
        top(s, n - 1).spec_larger(s[n - 1])
    }
}

/// The top of the chart: at least a hundredth.
pub open spec fn chart_top<S: Real>(s: Seq<S>) -> S {
    top(s, s.len() as int).spec_larger(optim::ratio(1, 100))
}

/// The bottom of the chart.
pub open spec fn chart_bottom<S: Real>(s: Seq<S>) -> S {
    grpo::least(s, s.len() as int)
}

/// Where a point stands in the chart.
pub open spec fn point_text<S: Textual>(p: Seq<(usize, S)>, i: int) -> Seq<char> {
    let s = losses(p);
    let last = last_epoch(p, p.len() as int);
    let span = chart_top(s).spec_minus(chart_bottom(s)).spec_larger(optim::ratio(1, 1000));
    let x = S::spec_count(40).spec_plus(
        S::spec_count(p[i].0).spec_over(S::spec_count(last)).spec_times(S::spec_count(520)),
    );
    let y = S::spec_count(40).spec_plus(
        S::spec_one().spec_minus(
            p[i].1.spec_minus(chart_bottom(s)).spec_over(span),
        ).spec_times(S::spec_count(220)),
    );
    x.spec_show_places(1) + ","@ + y.spec_show_places(1)
}

/// How much the loss has fallen, in percent of the first; zero where the first is not positive.
pub open spec fn improvement<S: Real>(s: Seq<S>) -> S {
    if S::spec_zero().spec_below(s[0]) {
        S::spec_one().spec_minus(s.last().spec_over(s[0])).spec_times(S::spec_count(100))
    } else {
        S::spec_zero()
    }
}

pub open spec fn chart_head(title: Seq<char>, n: nat) -> Seq<char> {
    "<!DOCTYPE html><html><head><meta charset=\"utf-8\"><title>Training</title><style>body{font-family:sans-serif;background:#0f0f23;color:#eee;margin:0;padding:20px}h1{color:#e94560}.stats{display:flex;gap:16px;margin:16px 0}.stat{background:#1a1a2e;border-radius:8px;padding:10px 18px;text-align:center}.sv{font-size:22px;font-weight:bold;color:#e94560}.sl{font-size:11px;color:#666;text-transform:uppercase}svg{background:#16213e;border-radius:12px}</style></head><body><h1>Training: "@
        + title + "</h1><p>"@ + text::digits(n) + " epochs</p><div class=\"stats\">"@
}

pub open spec fn chart_stats<S: Textual>(s: Seq<S>) -> Seq<char> {
    "<div class=\"stat\"><div class=\"sv\">"@ + s[0].spec_show_places(4)
        + "</div><div class=\"sl\">Initial</div></div><div class=\"stat\"><div class=\"sv\">"@
        + s.last().spec_show_places(4)
        + "</div><div class=\"sl\">Final</div></div><div class=\"stat\"><div class=\"sv\">"@
        + improvement(s).spec_show_places(1)
        + "%</div><div class=\"sl\">Improvement</div></div></div>"@
}

pub open spec fn chart_drawing<S: Textual>(p: Seq<(usize, S)>) -> Seq<char> {
    let s = losses(p);
    "<svg viewBox=\"0 0 600 300\" xmlns=\"http://www.w3.org/2000/svg\"><line x1=\"40\" y1=\"40\" x2=\"40\" y2=\"260\" stroke=\"#333\"/><line x1=\"40\" y1=\"260\" x2=\"560\" y2=\"260\" stroke=\"#333\"/><polyline points=\""@
        + text::joined(Seq::new(p.len(), |i: int| point_text(p, i)), " "@)
        + "\" fill=\"none\" stroke=\"#e94560\" stroke-width=\"2.5\"/>"@
}

pub open spec fn chart_labels<S: Textual>(p: Seq<(usize, S)>) -> Seq<char> {
    let s = losses(p);
    "<text x=\"30\" y=\"35\" fill=\"#888\" font-size=\"11\">"@ + chart_top(s).spec_show_places(3)
        + "</text><text x=\"30\" y=\"275\" fill=\"#888\" font-size=\"11\">"@
        + chart_bottom(s).spec_show_places(3)
        + "</text><text x=\"540\" y=\"278\" fill=\"#888\" font-size=\"11\">Epoch "@
        + text::digits(last_epoch(p, p.len() as int) as nat) + "</text></svg></body></html>"@
}

/// The page on the training.
pub open spec fn chart_page<S: Textual>(title: Seq<char>, p: Seq<(usize, S)>) -> Seq<char> {
    if p.len() == 0 {
        "<html><body><h1>"@ + title + "</h1><p>No data.</p></body></html>"@
    } else {
        chart_head(title, p.len()) + chart_stats(losses(p)) + chart_drawing(p) + chart_labels(p)
    }
}

impl<S: Textual> TrainingDashboard<S> {
    pub fn new(title: &str) -> (r: Self)
        ensures
            r.title@ == title@,
            r.points@ == Seq::<(usize, S)>::empty(),
    {
        TrainingDashboard { title: owned(title), points: Vec::new() }
    }

    /// Adds the loss of an epoch.
    pub fn add_point(&mut self, epoch: usize, loss: S)
        ensures
            final(self).points@ == old(self).points@.push((epoch, loss)),
            final(self).title == old(self).title,
    {
        self.points.push((epoch, loss));
    }

    /// The page.
    pub fn render(&self) -> (r: String)
        ensures
            r@ == chart_page(self.title@, self.points@),
    {
        let n: usize = self.points.len();
        if n == 0 {
            let mut h: Vec<char> = Vec::new();
            push_text(&mut h, "<html><body><h1>");
            push_text(&mut h, self.title.as_str());
            push_text(&mut h, "</h1><p>No data.</p></body></html>");
            return string_of(&h);
        }
        let ghost p = self.points@;
        let ghost s = losses(p);
        let mut last: usize = self.points[0].0;
        let mut high = S::zero();
        let mut low = S::highest();
        for i in 0..n
            invariant
                n == self.points@.len(),
                p == self.points@,
                s == losses(p),
                n > 0,
                i == 0 ==> last == p[0].0,
                i > 0 ==> last == last_epoch(p, i as int),
                high == top(s, i as int),
                low == grpo::least(s, i as int),
        {
            let epoch: usize = self.points[i].0;
            if epoch >= last {
                last = epoch;
            }
            high = high.larger(self.points[i].1);
            low = low.smaller(self.points[i].1);
        }
        let high = high.larger(fraction(1, 100));
        let span = high.minus(low).larger(fraction(1, 1000));
        let mut parts: Vec<Vec<char>> = Vec::new();
        let ghost want = Seq::new(p.len(), |i: int| point_text(p, i));
        for i in 0..n
            invariant
                n == self.points@.len(),
                p == self.points@,
                s == losses(p),
                last == last_epoch(p, n as int),
                low == chart_bottom(s),
                span == chart_top(s).spec_minus(chart_bottom(s)).spec_larger(
                    optim::ratio(1, 1000),
                ),
                want == Seq::new(p.len(), |i: int| point_text(p, i)),
                text::views(parts@) =~= want.take(i as int),
        {
            let x = S::count(40).plus(
                S::count(self.points[i].0).over(S::count(last)).times(S::count(520)),
            );
            let y = S::count(40).plus(
                S::one().minus(self.points[i].1.minus(low).over(span)).times(S::count(220)),
            );
            let mut t = x.show_places(1);
            push_text(&mut t, ",");
            let yt = y.show_places(1);
            push_chars(&mut t, &yt);
            let ghost tv = t@;
            let ghost before = text::views(parts@);
            assert(tv =~= want[i as int]);
            parts.push(t);
            assert(text::views(parts@) =~= before.push(tv));
        }
        assert(want.take(n as int) =~= want);
        let path = join(&parts, " ");
        let mut h = self.head_chars();
        let stats = self.stats_chars();
        push_chars(&mut h, &stats);
        let mut d: Vec<char> = Vec::new();
        push_text(
            &mut d,
            "<svg viewBox=\"0 0 600 300\" xmlns=\"http://www.w3.org/2000/svg\"><line x1=\"40\" y1=\"40\" x2=\"40\" y2=\"260\" stroke=\"#333\"/><line x1=\"40\" y1=\"260\" x2=\"560\" y2=\"260\" stroke=\"#333\"/><polyline points=\"",
        );
        push_chars(&mut d, &path);
        push_text(&mut d, "\" fill=\"none\" stroke=\"#e94560\" stroke-width=\"2.5\"/>");
        assert(d@ =~= chart_drawing(p));
        push_chars(&mut h, &d);
        let mut d: Vec<char> = Vec::new();
        push_text(&mut d, "<text x=\"30\" y=\"35\" fill=\"#888\" font-size=\"11\">");
        let t = high.show_places(3);
        push_chars(&mut d, &t);
        push_text(&mut d, "</text><text x=\"30\" y=\"275\" fill=\"#888\" font-size=\"11\">");
        let t = low.show_places(3);
        push_chars(&mut d, &t);
        push_text(
            &mut d,
            "</text><text x=\"540\" y=\"278\" fill=\"#888\" font-size=\"11\">Epoch ",
        );
        push_decimal(&mut d, last as u64);
        push_text(&mut d, "</text></svg></body></html>");
        assert(d@ =~= chart_labels(p));
        push_chars(&mut h, &d);
        string_of(&h)
    }

    fn head_chars(&self) -> (r: Vec<char>)
        ensures
            r@ == chart_head(self.title@, self.points@.len()),
    {
        let mut h: Vec<char> = Vec::new();
        push_text(
            &mut h,
            "<!DOCTYPE html><html><head><meta charset=\"utf-8\"><title>Training</title><style>body{font-family:sans-serif;background:#0f0f23;color:#eee;margin:0;padding:20px}h1{color:#e94560}.stats{display:flex;gap:16px;margin:16px 0}.stat{background:#1a1a2e;border-radius:8px;padding:10px 18px;text-align:center}.sv{font-size:22px;font-weight:bold;color:#e94560}.sl{font-size:11px;color:#666;text-transform:uppercase}svg{background:#16213e;border-radius:12px}</style></head><body><h1>Training: ",
        );
        push_text(&mut h, self.title.as_str());
        push_text(&mut h, "</h1><p>");
        push_decimal(&mut h, self.points.len() as u64);
        push_text(&mut h, " epochs</p><div class=\"stats\">");
        assert(h@ =~= chart_head(self.title@, self.points@.len()));
        h
    }

    fn stats_chars(&self) -> (r: Vec<char>)
        requires
            self.points@.len() > 0,
        ensures
            r@ == chart_stats(losses(self.points@)),
    {
        let ghost s = losses(self.points@);
        let n: usize = self.points.len();
        let first = self.points[0].1;
        let last = self.points[n - 1].1;
        let gain = if S::zero().below(first) {
            S::one().minus(last.over(first)).times(S::count(100))
        } else {
            S::zero()
        };
        assert(gain == improvement(s));
        let mut h: Vec<char> = Vec::new();
        push_text(&mut h, "<div class=\"stat\"><div class=\"sv\">");
        let t = first.show_places(4);
        push_chars(&mut h, &t);
        push_text(
            &mut h,
            "</div><div class=\"sl\">Initial</div></div><div class=\"stat\"><div class=\"sv\">",
        );
        let t = last.show_places(4);
        push_chars(&mut h, &t);
        push_text(
            &mut h,
            "</div><div class=\"sl\">Final</div></div><div class=\"stat\"><div class=\"sv\">",
        );
        let t = gain.show_places(1);
        push_chars(&mut h, &t);
        push_text(&mut h, "%</div><div class=\"sl\">Improvement</div></div></div>");
        assert(h@ =~= chart_stats(s));
        h
    }
}

/// The colour of a number between the least and the greatest: from blue to red.
pub open spec fn hue<S: Real>(v: S, low: S, span: S) -> S {
    S::spec_one().spec_minus(grpo::clamped(v.spec_minus(low).spec_over(span))).spec_times(
        S::spec_count(240),
    )
}

/// A cell of the table.
pub open spec fn cell_html<S: Textual>(v: S, low: S, span: S) -> Seq<char> {
    "<td style=\"background:hsl("@ + hue(v, low, span).spec_show_places(0)
        + ",70%,50%);color:#fff;font-size:9px;text-align:center;padding:2px 4px\">"@
        + v.spec_show_places(2) + "</td>"@
}

/// The first `n` cells, with a new row after each full one but the last.
pub open spec fn cells_html<S: Textual>(s: Seq<S>, cols: int, low: S, span: S, n: int) -> Seq<char>
    decreases n,
{
    if n <= 0 {
        Seq::empty()
    } else {
        cells_html(s, cols, low, span, n - 1) + cell_html(s[n - 1], low, span) + (if n % cols == 0
            && n < s.len() {
            "</tr><tr>"@
        } else {
            Seq::empty()
        })
    }
}

/// How many cells a row has: as many as the last axis is long, but at least one.
pub open spec fn heat_columns(shape: Seq<usize>, shown: nat) -> int {
    let c = if shape.len() > 0 {
        shape.last() as int
    } else {
        shown as int
    };
    if c < 1 {
        1
    } else {
        c
    }
}

/// The first elements of a tensor as a coloured table.
pub fn tensor_heatmap_html<S: Textual>(tensor: &Tensor<S>, max_display: usize) -> (r: String)
    ensures
        r@ == ({
            let s = shown(tensor.data@, max_display);
            let low = grpo::least(s, s.len() as int);
            let span = grpo::greatest(s, s.len() as int).spec_minus(low).spec_larger(
                optim::ratio(1, 100_000_000),
            );
            "<table style=\"border-collapse:collapse;font-family:monospace\"><tr>"@ + cells_html(
                s,
                heat_columns(tensor.shape@, s.len()),
                low,
                span,
                s.len() as int,
            ) + "</tr></table>"@
        }),
{
    let len: usize = tensor.data.len();
    let n: usize = if max_display < len {
        max_display
    } else {
        len
    };
    let ghost s = shown(tensor.data@, max_display);
    let mut high = S::lowest();
    let mut low = S::highest();
    for i in 0..n
        invariant
            n == s.len(),
            s == shown(tensor.data@, max_display),
            n <= tensor.data@.len(),
            high == grpo::greatest(s, i as int),
            low == grpo::least(s, i as int),
    {
        high = high.larger(tensor.data[i]);
        low = low.smaller(tensor.data[i]);
    }
    let span = high.minus(low).larger(fraction(1, 100_000_000));
    let axes: usize = tensor.shape.len();
    let c: usize = if axes > 0 {
        tensor.shape[axes - 1]
    } else {
        n
    };
    let cols: usize = if c < 1 {
        1
    } else {
        c
    };
    let mut cells: Vec<char> = Vec::new();
    for i in 0..n
        invariant
            n == s.len(),
            s == shown(tensor.data@, max_display),
            n <= tensor.data@.len(),
            cols > 0,
            cells@ =~= cells_html(s, cols as int, low, span, i as int),
    {
        let v = tensor.data[i];
        let mut t: Vec<char> = Vec::new();
        push_text(&mut t, "<td style=\"background:hsl(");
        let norm = grpo::clamp(v.minus(low).over(span));
        let h = S::one().minus(norm).times(S::count(240)).show_places(0);
        push_chars(&mut t, &h);
        push_text(
            &mut t,
            ",70%,50%);color:#fff;font-size:9px;text-align:center;padding:2px 4px\">",
        );
        let x = v.show_places(2);
        push_chars(&mut t, &x);
        push_text(&mut t, "</td>");
        assert(t@ =~= cell_html(v, low, span));
        push_chars(&mut cells, &t);
        if (i + 1) % cols == 0 && i + 1 < n {
            push_text(&mut cells, "</tr><tr>");
        }
    }
    let mut out: Vec<char> = Vec::new();
    push_text(&mut out, "<table style=\"border-collapse:collapse;font-family:monospace\"><tr>");
    push_chars(&mut out, &cells);
    push_text(&mut out, "</tr></table>");
    string_of(&out)
}

/// The elements that are shown.
pub open spec fn shown<S>(s: Seq<S>, max_display: usize) -> Seq<S> {
    if max_display < s.len() {
        s.take(max_display as int)
    } else {
        s
    }
}

/// The model and its training on one page.
pub fn full_dashboard<S: Textual>(
    title: &str,
    model: &ModelDashboard,
    training: &TrainingDashboard<S>,
) -> (r: String)
    requires
        parameters(model.spec_layers(), model.layers@.len() as int) <= usize::MAX,
        model.layers@.len() * 210 + 210 <= usize::MAX,
    ensures
        r@ == "<!DOCTYPE html><html><head><meta charset=\"utf-8\"><title>"@ + title@
            + "</title><style>body{font-family:sans-serif;background:#0f0f23;color:#eee;margin:0;padding:20px}h1,h2{color:#e94560}.sec{background:#16213e;border-radius:12px;padding:20px;margin:16px 0}</style></head><body><h1>"@
            + title@ + "</h1><div class=\"sec\"><h2>Model Architecture</h2>"@ + (page_head(
            model.title@,
        ) + page_stats(
            model.layers@.len(),
            parameters(model.spec_layers(), model.layers@.len() as int),
        ) + page_drawing(model.spec_layers()))
            + "</div><div class=\"sec\"><h2>Training Metrics</h2>"@ + chart_page(
            training.title@,
            training.points@,
        ) + "</div></body></html>"@,
{
    let mut h: Vec<char> = Vec::new();
    push_text(&mut h, "<!DOCTYPE html><html><head><meta charset=\"utf-8\"><title>");
    push_text(&mut h, title);
    push_text(
        &mut h,
        "</title><style>body{font-family:sans-serif;background:#0f0f23;color:#eee;margin:0;padding:20px}h1,h2{color:#e94560}.sec{background:#16213e;border-radius:12px;padding:20px;margin:16px 0}</style></head><body><h1>",
    );
    push_text(&mut h, title);
    push_text(&mut h, "</h1><div class=\"sec\"><h2>Model Architecture</h2>");
    push_text(&mut h, model.render().as_str());
    push_text(&mut h, "</div><div class=\"sec\"><h2>Training Metrics</h2>");
    push_text(&mut h, training.render().as_str());
    push_text(&mut h, "</div></body></html>");
    string_of(&h)
}

} // verus!
