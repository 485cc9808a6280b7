//! A page that plays frames like a video.

use vstd::prelude::*;

use crate::markup;
use crate::text;

verus! {

/// The page up to its title.
pub const PAGE_START: &'static str = r#"<!doctype html>
<html lang="en"><head><meta charset="utf-8">
<meta name="viewport" content="width=device-width,initial-scale=1">
<title>"#;

/// The page from its title to its tabs.
pub const PAGE_STYLE: &'static str = r#"</title>
<style>
  :root { color-scheme: dark; }
  body { margin: 0; background: #0f1115; color: #d7dde5;
         font: 14px/1.5 ui-monospace, SFMono-Regular, Menlo, monospace; }
  main { max-width: 1240px; margin: 0 auto; padding: 16px; }
  .tabs { display: flex; gap: 8px; margin-bottom: 12px; }
  .tabs button { background: #191d24; color: #8892a0; border: 1px solid #262c36;
                 border-radius: 6px; padding: 6px 14px; cursor: pointer; font: inherit; }
  .tabs button[aria-selected="true"] { background: #232a34; color: #d7dde5; }
  .stage { position: relative; background: #0f1115; border: 1px solid #1c2129;
           border-radius: 8px; overflow: hidden; }
  .frame { display: none; }
  .frame.on { display: block; }
  .frame svg { display: block; width: 100%; height: auto; }
  .controls { display: flex; align-items: center; gap: 10px; margin-top: 12px; }
  .controls button { background: #191d24; color: #d7dde5; border: 1px solid #262c36;
                     border-radius: 6px; width: 40px; height: 34px; cursor: pointer;
                     font: inherit; }
  .controls button:hover { background: #232a34; }
  input[type=range] { flex: 1; accent-color: #4c8dff; }
  .pos { color: #6b7482; min-width: 86px; text-align: right; }
  .hint { color: #6b7482; margin-top: 10px; font-size: 12px; }
  .track { display: none; }
  .track.on { display: block; }
</style></head><body><main>
"#;

/// The buttons under a track, up to the number of its last frame.
pub const CONTROLS: &'static str = r#"</div>
<div class="controls">
  <button data-act="home" title="First (Home)">|&lt;</button>
  <button data-act="prev" title="Back one (Left)">&lt;</button>
  <button data-act="play" title="Play / pause (Space)">&#9654;</button>
  <button data-act="next" title="Forward one (Right)">&gt;</button>
  <button data-act="end" title="Last (End)">&gt;|</button>
  <input type="range" min="0" max=""#;

/// The page after its tracks.
pub const PAGE_END: &'static str = r#"<p class="hint">Space plays and pauses · &larr; and &rarr; step one frame · Home and End jump to the ends · drag the slider to scrub.</p>
</main>
<script>
const tracks = [...document.querySelectorAll('section.track')].map(section => {
  const frames = [...section.querySelectorAll('.frame')];
  const range = section.querySelector('input[type=range]');
  const pos = section.querySelector('.pos');
  const play = section.querySelector('[data-act=play]');
  const t = { section, frames, range, pos, play, at: 0, timer: null };

  t.show = n => {
    n = Math.max(0, Math.min(frames.length - 1, n));
    frames[t.at].classList.remove('on');
    frames[n].classList.add('on');
    t.at = n;
    range.value = n;
    pos.textContent = n + ' / ' + (frames.length - 1);
  };
  t.stop = () => { clearInterval(t.timer); t.timer = null; play.innerHTML = '&#9654;'; };
  t.start = () => {
    if (t.at >= frames.length - 1) t.show(0);
    play.innerHTML = '&#10073;&#10073;';
    t.timer = setInterval(() => {
      if (t.at >= frames.length - 1) { t.stop(); return; }
      t.show(t.at + 1);
    }, 90);
  };
  t.toggle = () => (t.timer ? t.stop() : t.start());

  range.addEventListener('input', () => { t.stop(); t.show(+range.value); });
  section.querySelectorAll('[data-act]').forEach(b =>
    b.addEventListener('click', () => {
      const act = b.dataset.act;
      if (act === 'play') return t.toggle();
      t.stop();
      if (act === 'home') t.show(0);
      if (act === 'end') t.show(frames.length - 1);
      if (act === 'prev') t.show(t.at - 1);
      if (act === 'next') t.show(t.at + 1);
    })
  );
  return t;
});

let current = 0;
document.querySelectorAll('[role=tab]').forEach(tab =>
  tab.addEventListener('click', () => {
    tracks[current].stop();
    document.querySelectorAll('[role=tab]').forEach(o =>
      o.setAttribute('aria-selected', o === tab));
    tracks.forEach((t, i) => t.section.classList.toggle('on', i === +tab.dataset.track));
    current = +tab.dataset.track;
  })
);

addEventListener('keydown', e => {
  const t = tracks[current];
  const keys = { ArrowLeft: -1, ArrowRight: 1 };
  if (e.key in keys) { t.stop(); t.show(t.at + keys[e.key]); }
  else if (e.key === ' ') t.toggle();
  else if (e.key === 'Home') { t.stop(); t.show(0); }
  else if (e.key === 'End') { t.stop(); t.show(t.frames.length - 1); }
  else return;
  e.preventDefault();
});
</script></body></html>
"#;

/// One scrubbable sequence: the frames, and a caption per frame.
#[derive(Debug)]
pub struct Track {
    pub name: String,
    pub frames: Vec<String>,
    pub captions: Vec<String>,
}

/// The attribute value of a flag.
pub open spec fn flag(b: bool) -> Seq<char> {
    if b {
        "true"@
    } else {
        "false"@
    }
}

/// The class of what is shown first.
pub open spec fn shown(b: bool) -> Seq<char> {
    if b {
        " on"@
    } else {
        ""@
    }
}

/// The tabs of the first `n` tracks.
pub open spec fn tabs(tracks: Seq<Track>, n: int) -> Seq<char>
    decreases n,
{
    if n <= 0 {
        Seq::empty()
    } else {
        tabs(tracks, n - 1) + "<button role=\"tab\" data-track=\""@ + text::dec(n - 1)
            + "\" aria-selected=\""@ + flag(n == 1) + "\">"@ + markup::escaped(
            tracks[n - 1].name@,
        ) + "</button>"@
    }
}

/// The first `n` frames. A frame is an `<svg>` document already, and drops straight in.
pub open spec fn pictures(frames: Seq<Seq<char>>, n: int) -> Seq<char>
    decreases n,
{
    if n <= 0 {
        Seq::empty()
    } else {
        pictures(frames, n - 1) + "<div class=\"frame"@ + shown(n == 1) + "\">"@ + frames[n - 1]
            + "</div>"@
    }
}

/// The number of the last of `n` frames.
pub open spec fn last_frame(n: nat) -> int {
    if n == 0 {
        0
    } else {
        n - 1
    }
}

/// The first `n` tracks.
pub open spec fn sections(tracks: Seq<Track>, n: int) -> Seq<char>
    decreases n,
{
    if n <= 0 {
        Seq::empty()
    } else {
        let frames = text::views(tracks[n - 1].frames@);
        let last = text::dec(last_frame(frames.len()));
        sections(tracks, n - 1) + "<section class=\"track"@ + shown(n == 1) + "\" data-track=\""@
            + text::dec(n - 1) + "\"><div class=\"stage\">"@ + pictures(
            frames,
            frames.len() as int,
        ) + CONTROLS@ + last + "\" value=\"0\">\n  <span class=\"pos\">0 / "@ + last + "</span>\n</div></section>\n"@
    }
}

/// The whole page.
pub open spec fn page(title: Seq<char>, tracks: Seq<Track>) -> Seq<char> {
    PAGE_START@ + markup::escaped(title) + PAGE_STYLE@ + "<div class=\"tabs\" role=\"tablist\">"@
        + tabs(tracks, tracks.len() as int) + "</div>\n"@ + sections(tracks, tracks.len() as int)
        + PAGE_END@
}

fn tabs_html(tracks: &[Track]) -> (r: String)
    ensures
        r@ == tabs(tracks@, tracks@.len() as int),
{
    let mut s = String::new();
    let mut i: usize = 0;
    while i < tracks.len()
        invariant
            i <= tracks@.len(),
            s@ =~= tabs(tracks@, i as int),
        decreases tracks.len() - i,
    {
        s.append("<button role=\"tab\" data-track=\"");
        s.append(text::dec_text(i as u64).as_str());
        s.append("\" aria-selected=\"");
        s.append(
            if i == 0 {
                "true"
            } else {
                "false"
            },
        );
        s.append("\">");
        s.append(markup::esc(tracks[i].name.as_str()).as_str());
        s.append("</button>");
        i += 1;
    }
    s
}

fn pictures_html(frames: &Vec<String>) -> (r: String)
    ensures
        r@ == pictures(text::views(frames@), frames@.len() as int),
{
    let mut s = String::new();
    let mut i: usize = 0;
    while i < frames.len()
        invariant
            i <= frames@.len(),
            s@ =~= pictures(text::views(frames@), i as int),
        decreases frames.len() - i,
    {
        assert(text::views(frames@)[i as int] == frames@[i as int]@);
        s.append("<div class=\"frame");
        s.append(
            if i == 0 {
                " on"
            } else {
                ""
            },
        );
        s.append("\">");
        s.append(frames[i].as_str());
        s.append("</div>");
        i += 1;
    }
    s
}

fn sections_html(tracks: &[Track]) -> (r: String)
    ensures
        r@ == sections(tracks@, tracks@.len() as int),
{
    let mut s = String::new();
    let mut i: usize = 0;
    while i < tracks.len()
        invariant
            i <= tracks@.len(),
            s@ =~= sections(tracks@, i as int),
        decreases tracks.len() - i,
    {
        let frames = &tracks[i].frames;
        let count: u64 = frames.len() as u64;
        let last = text::dec_text(
            if count == 0 {
                0
            } else {
                count - 1
            },
        );
        s.append("<section class=\"track");
        s.append(
            if i == 0 {
                " on"
            } else {
                ""
            },
        );
        s.append("\" data-track=\"");
        s.append(text::dec_text(i as u64).as_str());
        s.append("\"><div class=\"stage\">");
        s.append(pictures_html(frames).as_str());
        s.append(CONTROLS);
        s.append(last.as_str());
        s.append("\" value=\"0\">\n  <span class=\"pos\">0 / ");
        s.append(last.as_str());
        s.append("</span>\n</div></section>\n");
        i += 1;
    }
    s
}

/// A self-contained HTML page that plays the frames like a video, with a scrubber.
///
/// Every frame is inlined as its own `<svg>` and shown or hidden with a class. That costs
/// more bytes than storing the markup in a JavaScript array and re-parsing on each change,
/// and it buys two things worth more: scrubbing never re-parses anything, so dragging the
/// slider is instant, and there is no string escaping to get wrong between the SVG
/// generator and the page.
///
/// No scripts from anywhere, no fonts from anywhere, no network at all. The page is one
/// file: mail it, open it from disk, or serve it from Pages.
#[must_use]
pub fn player_html(title: &str, tracks: &[Track]) -> (r: String)
    ensures
        r@ == page(title@, tracks@),
{
    let mut s = PAGE_START.to_string();
    s.append(markup::esc(title).as_str());
    s.append(PAGE_STYLE);
    s.append("<div class=\"tabs\" role=\"tablist\">");
    s.append(tabs_html(tracks).as_str());
    s.append("</div>\n");
    s.append(sections_html(tracks).as_str());
    s.append(PAGE_END);
    s
}

} // verus!
