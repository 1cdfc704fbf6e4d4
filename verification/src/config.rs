//! Configuration.
//!
//! Precedence is command line, then environment, then config file, then the
//! built-in default. [`Settings`] is the resolved result; nothing downstream
//! looks at the environment again.

use vstd::prelude::*;
use std::collections::BTreeMap;
use crate::text::{chars_of, eq_at, lower_seq, lower_string};
use crate::width::WidthCalc;
use crate::theme::DEFAULT_THEME;

verus! {


/// The config file. Every field is optional, so an absent file and an empty
/// file mean the same thing.
#[derive(Debug, Clone, Default)]
pub struct ConfigFile {
    pub theme: Option<String>,
    pub default_mode: Option<String>,
    pub default_wrap: Option<bool>,
    pub width: Option<usize>,
    pub margin: Option<usize>,
    pub status: Option<bool>,
    pub double_height_headings: Option<bool>,
    pub images: Option<bool>,
    pub remote_images: Option<bool>,
    pub graphics: Option<String>,
    pub mouse: Option<bool>,
    pub east_asian_ambiguous_wide: Option<bool>,
    pub watch: Option<bool>,
    pub mermaid: Option<String>,
    pub keys: BTreeMap<String, Vec<String>>,
}

/// Whether the terminal is taken to speak the Kitty graphics protocol.
#[derive(Debug, Clone, Copy, PartialEq, Eq, Default, Structural)]
pub enum GraphicsMode {
    /// Work it out from the environment.
    #[default]
    Auto,
    /// Assume it does, whatever the environment says: what `ssh` needs.
    Kitty,
    /// Never draw pictures.
    Off,
}

/// How mermaid blocks are drawn.
#[derive(Debug, Clone, Copy, PartialEq, Eq, Default, Structural)]
pub enum MermaidMode {
    /// Box drawings where they work, `mmdc` for everything else.
    #[default]
    Auto,
    /// Never launch `mmdc`.
    Text,
    /// Always render through `mmdc`, where it and terminal graphics exist.
    Image,
}

/// The graphics mode a word names, in any case.
pub open spec fn graphics_mode_of(s: Seq<char>) -> Option<GraphicsMode> {
    let k = lower_seq(s);
    if k == "auto"@ || k == "detect"@ {
        Some(GraphicsMode::Auto)
    } else if k == "kitty"@ || k == "on"@ || k == "yes"@ || k == "force"@ {
        Some(GraphicsMode::Kitty)
    } else if k == "none"@ || k == "off"@ || k == "no"@ {
        Some(GraphicsMode::Off)
    } else {
        None
    }
}

/// The mermaid mode a word names, in any case.
pub open spec fn mermaid_mode_of(s: Seq<char>) -> Option<MermaidMode> {
    let k = lower_seq(s);
    if k == "auto"@ {
        Some(MermaidMode::Auto)
    } else if k == "text"@ || k == "boxes"@ {
        Some(MermaidMode::Text)
    } else if k == "image"@ || k == "images"@ {
        Some(MermaidMode::Image)
    } else {
        None
    }
}

/// `s`, ASCII-lowercased, as characters.
fn lowered(s: &str) -> (r: Vec<char>)
    ensures
        r@ == lower_seq(s@),
{
    let v = chars_of(s);
    let l = lower_string(&v, 0, v.len());
    proof {
        assert(v@.subrange(0, v@.len() as int) =~= v@);
    }
    chars_of(l.as_str())
}

impl GraphicsMode {
    pub fn parse(s: &str) -> (r: Option<GraphicsMode>)
        ensures
            r == graphics_mode_of(s@),
    {
        let k = lowered(s);
        let n = k.len();
        proof {
            assert(k@.subrange(0, n as int) =~= k@);
        }
        if eq_at(&k, 0, n, "auto") || eq_at(&k, 0, n, "detect") {
            Some(GraphicsMode::Auto)
        } else if eq_at(&k, 0, n, "kitty") || eq_at(&k, 0, n, "on") || eq_at(&k, 0, n, "yes")
            || eq_at(&k, 0, n, "force") {
            Some(GraphicsMode::Kitty)
        } else if eq_at(&k, 0, n, "none") || eq_at(&k, 0, n, "off") || eq_at(&k, 0, n, "no") {
            Some(GraphicsMode::Off)
        } else {
            None
        }
    }
}

impl MermaidMode {
    pub fn parse(s: &str) -> (r: Option<MermaidMode>)
        ensures
            r == mermaid_mode_of(s@),
    {
        let k = lowered(s);
        let n = k.len();
        proof {
            assert(k@.subrange(0, n as int) =~= k@);
        }
        if eq_at(&k, 0, n, "auto") {
            Some(MermaidMode::Auto)
        } else if eq_at(&k, 0, n, "text") || eq_at(&k, 0, n, "boxes") {
            Some(MermaidMode::Text)
        } else if eq_at(&k, 0, n, "image") || eq_at(&k, 0, n, "images") {
            Some(MermaidMode::Image)
        } else {
            None
        }
    }
}

#[derive(Debug, Clone, PartialEq, Eq)]
pub struct Settings {
    pub theme: String,
    pub source: bool,
    pub wrap: bool,
    pub width: usize,
    pub margin: usize,
    pub status: bool,
    pub double_height: bool,
    pub images: bool,
    /// Fetch images that live behind an `http(s)` URL.
    pub remote_images: bool,
    /// Whether to believe the terminal can draw pictures.
    pub graphics: GraphicsMode,
    pub mouse: bool,
    pub ambiguous_wide: bool,
    pub no_color: bool,
    pub watch: bool,
    pub mermaid: MermaidMode,
    pub keys: BTreeMap<String, Vec<String>>,
}

impl Default for Settings {
    fn default() -> (r: Settings)
        ensures
            r.theme@ == DEFAULT_THEME@,
            !r.source,
            r.wrap,
            r.width == 0,
            r.margin == 2,
            !r.status,
            r.double_height,
            r.images,
            r.remote_images,
            r.graphics == GraphicsMode::Auto,
            !r.mouse,
            !r.ambiguous_wide,
            !r.no_color,
            !r.watch,
            r.mermaid == MermaidMode::Auto,
            r.keys@ == Map::<String, Vec<String>>::empty(),
    {
        Settings {
            theme: DEFAULT_THEME.to_owned(),
            source: false,
            wrap: true,
            width: 0,
            margin: 2,
            status: false,
            double_height: true,
            images: true,
            remote_images: true,
            graphics: GraphicsMode::Auto,
            mouse: false,
            ambiguous_wide: false,
            no_color: false,
            watch: false,
            mermaid: MermaidMode::Auto,
            keys: BTreeMap::new(),
        }
    }
}

/// `Some(v)` replaces the current value; `None` leaves it.
pub open spec fn or_keep<T>(v: Option<T>, current: T) -> T {
    match v {
        Some(x) => x,
        None => current,
    }
}

/// Whether a `default_mode` value asks for the source view, in any case.
pub open spec fn is_source(s: Seq<char>) -> bool {
    lower_seq(s) == "source"@
}

/// `v` if set, otherwise `current`.
fn keep_or<T: Copy>(v: Option<T>, current: T) -> (r: T)
    ensures
        r == or_keep(v, current),
{
    match v {
        Some(x) => x,
        None => current,
    }
}

/// Whether a `default_mode` value asks for the source view.
fn source_mode(v: &str) -> (r: bool)
    ensures
        r == is_source(v@),
{
    let k = lowered(v);
    let n = k.len();
    proof {
        assert(k@.subrange(0, n as int) =~= k@);
    }
    eq_at(&k, 0, n, "source")
}

impl Settings {
    pub fn calc(&self) -> (r: WidthCalc)
        ensures
            r.ambiguous_wide == self.ambiguous_wide,
    {
        WidthCalc::new(self.ambiguous_wide)
    }

    /// Applies a config file over the current settings: every field it sets
    /// replaces the current one, except that a graphics or mermaid mode it
    /// does not recognise is ignored, and an empty key table leaves the
    /// current one.
    pub fn apply_file(&mut self, file: &ConfigFile)
        ensures
            final(self).theme@ == (match file.theme {
                Some(t) => t@,
                None => old(self).theme@,
            }),
            final(self).source == (match file.default_mode {
                Some(m) => is_source(m@),
                None => old(self).source,
            }),
            final(self).wrap == or_keep(file.default_wrap, old(self).wrap),
            final(self).width == or_keep(file.width, old(self).width),
            final(self).margin == or_keep(file.margin, old(self).margin),
            final(self).status == or_keep(file.status, old(self).status),
            final(self).double_height == or_keep(file.double_height_headings, old(self).double_height),
            final(self).images == or_keep(file.images, old(self).images),
            final(self).remote_images == or_keep(file.remote_images, old(self).remote_images),
            final(self).graphics == (match file.graphics {
                Some(g) => or_keep(graphics_mode_of(g@), old(self).graphics),
                None => old(self).graphics,
            }),
            final(self).mouse == or_keep(file.mouse, old(self).mouse),
            final(self).ambiguous_wide == or_keep(file.east_asian_ambiguous_wide, old(self).ambiguous_wide),
            final(self).watch == or_keep(file.watch, old(self).watch),
            final(self).mermaid == (match file.mermaid {
                Some(m) => or_keep(mermaid_mode_of(m@), old(self).mermaid),
                None => old(self).mermaid,
            }),
            final(self).keys@ == (if file.keys@.is_empty() {
                old(self).keys@
            } else {
                file.keys@
            }),
            final(self).no_color == old(self).no_color,
    {
        let theme = match &file.theme {
            Some(v) => v.clone(),
            None => self.theme.clone(),
        };
        let source = match &file.default_mode {
            Some(v) => source_mode(v.as_str()),
            None => self.source,
        };
        let graphics = match &file.graphics {
            Some(g) => match GraphicsMode::parse(g.as_str()) {
                Some(v) => v,
                None => self.graphics,
            },
            None => self.graphics,
        };
        let mermaid = match &file.mermaid {
            Some(m) => match MermaidMode::parse(m.as_str()) {
                Some(v) => v,
                None => self.mermaid,
            },
            None => self.mermaid,
        };
        let keys = if file.keys.is_empty() {
            self.keys.clone()
        } else {
            file.keys.clone()
        };
        let updated = Settings {
            theme,
            source,
            wrap: keep_or(file.default_wrap, self.wrap),
            width: keep_or(file.width, self.width),
            margin: keep_or(file.margin, self.margin),
            status: keep_or(file.status, self.status),
            double_height: keep_or(file.double_height_headings, self.double_height),
            images: keep_or(file.images, self.images),
            remote_images: keep_or(file.remote_images, self.remote_images),
            graphics,
            mouse: keep_or(file.mouse, self.mouse),
            ambiguous_wide: keep_or(file.east_asian_ambiguous_wide, self.ambiguous_wide),
            no_color: self.no_color,
            watch: keep_or(file.watch, self.watch),
            mermaid,
            keys,
        };
        *self = updated;
    }

    /// Applies what the environment says: `MDROLL_THEME` names the theme,
    /// and `NO_COLOR` set to anything at all turns colour off, per the
    /// convention.
    pub fn apply_env_values(&mut self, theme: Option<String>, no_color: Option<String>)
        ensures
            final(self).theme@ == (match theme {
                Some(t) => t@,
                None => old(self).theme@,
            }),
            final(self).no_color == (old(self).no_color || no_color is Some),
            final(self).source == old(self).source,
            final(self).wrap == old(self).wrap,
            final(self).width == old(self).width,
            final(self).margin == old(self).margin,
            final(self).status == old(self).status,
            final(self).double_height == old(self).double_height,
            final(self).images == old(self).images,
            final(self).remote_images == old(self).remote_images,
            final(self).graphics == old(self).graphics,
            final(self).mouse == old(self).mouse,
            final(self).ambiguous_wide == old(self).ambiguous_wide,
            final(self).watch == old(self).watch,
            final(self).mermaid == old(self).mermaid,
            final(self).keys == old(self).keys,
            env_over(*old(self), theme, no_color, *final(self)),
    {
        let ghost t0 = theme;
        let ghost n0 = no_color;
        if let Some(t) = theme {
            self.theme = t;
        }
        if no_color.is_some() {
            self.no_color = true;
        }
        proof {
            reveal(env_over);
            assert(env_over(*old(self), t0, n0, *self));
        }
    }

    /// Applies the environment, as `env` reports it, over the config file.
    pub fn apply_env<F: Fn(&str) -> Option<String>>(&mut self, env: &F)
        requires
            forall|name: &str| call_requires(*env, (name,)),
        ensures
            exists|t: Option<String>, nc: Option<String>|
                call_ensures(*env, ("MDROLL_THEME",), t) && call_ensures(*env, ("NO_COLOR",), nc)
                && final(self).theme@ == (match t {
                    Some(x) => x@,
                    None => old(self).theme@,
                }) && final(self).no_color == (old(self).no_color || nc is Some),
            old(self).no_color ==> final(self).no_color,
            final(self).source == old(self).source,
            final(self).wrap == old(self).wrap,
            final(self).width == old(self).width,
            final(self).margin == old(self).margin,
            final(self).status == old(self).status,
            final(self).double_height == old(self).double_height,
            final(self).images == old(self).images,
            final(self).remote_images == old(self).remote_images,
            final(self).graphics == old(self).graphics,
            final(self).mouse == old(self).mouse,
            final(self).ambiguous_wide == old(self).ambiguous_wide,
            final(self).watch == old(self).watch,
            final(self).mermaid == old(self).mermaid,
            final(self).keys == old(self).keys,
    {
        let theme = env("MDROLL_THEME");
        let no_color = env("NO_COLOR");
        let ghost t = theme;
        let ghost nc = no_color;
        self.apply_env_values(theme, no_color);
        proof {
            assert(call_ensures(*env, ("MDROLL_THEME",), t) && call_ensures(*env, ("NO_COLOR",), nc));
        }
    }
}


/// What the command line asks of the settings: an option that was not given
/// is `None`, a flag that was not given is `false`.
pub struct Flags {
    pub theme: Option<String>,
    pub wrap: bool,
    pub no_wrap: bool,
    pub source: bool,
    pub width: Option<usize>,
    pub margin: Option<usize>,
    pub status: bool,
    pub no_status: bool,
    pub mouse: bool,
    pub no_images: bool,
    pub no_remote_images: bool,
    pub no_color: bool,
    pub watch: bool,
    pub mermaid: Option<String>,
    pub no_big_headings: bool,
    pub ambiguous_wide: bool,
}

/// `new` is `old` with a config file applied, as [`Settings::apply_file`]
/// applies one.
#[verifier::opaque]
pub open spec fn file_over(old: Settings, file: ConfigFile, new: Settings) -> bool {
    &&& new.theme@ == (match file.theme {
        Some(t) => t@,
        None => old.theme@,
    })
    &&& new.source == (match file.default_mode {
        Some(m) => is_source(m@),
        None => old.source,
    })
    &&& new.wrap == or_keep(file.default_wrap, old.wrap)
    &&& new.width == or_keep(file.width, old.width)
    &&& new.margin == or_keep(file.margin, old.margin)
    &&& new.status == or_keep(file.status, old.status)
    &&& new.double_height == or_keep(file.double_height_headings, old.double_height)
    &&& new.images == or_keep(file.images, old.images)
    &&& new.remote_images == or_keep(file.remote_images, old.remote_images)
    &&& new.graphics == (match file.graphics {
        Some(g) => or_keep(graphics_mode_of(g@), old.graphics),
        None => old.graphics,
    })
    &&& new.mouse == or_keep(file.mouse, old.mouse)
    &&& new.ambiguous_wide == or_keep(file.east_asian_ambiguous_wide, old.ambiguous_wide)
    &&& new.watch == or_keep(file.watch, old.watch)
    &&& new.mermaid == (match file.mermaid {
        Some(m) => or_keep(mermaid_mode_of(m@), old.mermaid),
        None => old.mermaid,
    })
    &&& new.keys@ == (if file.keys@.is_empty() { old.keys@ } else { file.keys@ })
    &&& new.no_color == old.no_color
}

/// `new` is `old` with the environment applied: `MDROLL_THEME` names the
/// theme, and `NO_COLOR` set at all turns colour off.
#[verifier::opaque]
pub open spec fn env_over(old: Settings, theme: Option<String>, no_color: Option<String>, new: Settings) -> bool {
    &&& new.theme@ == (match theme {
        Some(t) => t@,
        None => old.theme@,
    })
    &&& new.no_color == (old.no_color || no_color is Some)
    &&& new.source == old.source
    &&& new.wrap == old.wrap
    &&& new.width == old.width
    &&& new.margin == old.margin
    &&& new.status == old.status
    &&& new.double_height == old.double_height
    &&& new.images == old.images
    &&& new.remote_images == old.remote_images
    &&& new.graphics == old.graphics
    &&& new.mouse == old.mouse
    &&& new.ambiguous_wide == old.ambiguous_wide
    &&& new.watch == old.watch
    &&& new.mermaid == old.mermaid
    &&& new.keys == old.keys
}

/// `new` is `old` with the command line applied: every option given
/// replaces the setting; `--no-wrap` wins over `--wrap` and `--no-status`
/// over `--status`; the other flags only ever turn their setting one way.
#[verifier::opaque]
pub open spec fn cli_over(old: Settings, f: Flags, new: Settings) -> bool {
    &&& new.theme@ == (match f.theme {
        Some(t) => t@,
        None => old.theme@,
    })
    &&& new.wrap == (if f.no_wrap { false } else if f.wrap { true } else { old.wrap })
    &&& new.source == (old.source || f.source)
    &&& new.width == or_keep(f.width, old.width)
    &&& new.margin == or_keep(f.margin, old.margin)
    &&& new.status == (if f.no_status { false } else if f.status { true } else { old.status })
    &&& new.mouse == (old.mouse || f.mouse)
    &&& new.images == (old.images && !f.no_images)
    &&& new.remote_images == (old.remote_images && !f.no_remote_images)
    &&& new.no_color == (old.no_color || f.no_color)
    &&& new.watch == (old.watch || f.watch)
    &&& new.mermaid == (match f.mermaid {
        Some(m) => or_keep(mermaid_mode_of(m@), old.mermaid),
        None => old.mermaid,
    })
    &&& new.double_height == (old.double_height && !f.no_big_headings)
    &&& new.ambiguous_wide == (old.ambiguous_wide || f.ambiguous_wide)
    &&& new.graphics == old.graphics
    &&& new.keys@ == old.keys@
}

/// Whether the command line names a `--mermaid` mode that does not exist.
pub open spec fn bad_mermaid_flag(f: Flags) -> bool {
    f.mermaid matches Some(m) && mermaid_mode_of(m@) is None
}

impl Settings {
    /// Applies the command line over the current settings. `false` when it
    /// names a `--mermaid` mode that does not exist.
    pub fn apply_cli(&mut self, f: &Flags) -> (ok: bool)
        ensures
            ok == !bad_mermaid_flag(*f),
            cli_over(*old(self), *f, *final(self)),
    {
        let mermaid = match &f.mermaid {
            Some(m) => MermaidMode::parse(m.as_str()),
            None => Some(self.mermaid),
        };
        let ok = mermaid.is_some();
        let theme = match &f.theme {
            Some(t) => t.clone(),
            None => self.theme.clone(),
        };
        let updated = Settings {
            theme,
            source: self.source || f.source,
            wrap: if f.no_wrap { false } else if f.wrap { true } else { self.wrap },
            width: keep_or(f.width, self.width),
            margin: keep_or(f.margin, self.margin),
            status: if f.no_status { false } else if f.status { true } else { self.status },
            double_height: self.double_height && !f.no_big_headings,
            images: self.images && !f.no_images,
            remote_images: self.remote_images && !f.no_remote_images,
            graphics: self.graphics,
            mouse: self.mouse || f.mouse,
            ambiguous_wide: self.ambiguous_wide || f.ambiguous_wide,
            no_color: self.no_color || f.no_color,
            watch: self.watch || f.watch,
            mermaid: match mermaid {
                Some(v) => v,
                None => self.mermaid,
            },
            keys: self.keys.clone(),
        };
        *self = updated;
        proof {
            reveal(cli_over);
        }
        ok
    }
}

/// The settings a run uses: the command line over the environment, over
/// the config file (when there is one), over `base`. `None` when the
/// command line names a `--mermaid` mode that does not exist.
pub fn resolve_settings(
    base: Settings,
    file: Option<&ConfigFile>,
    env_theme: Option<String>,
    env_no_color: Option<String>,
    cli: &Flags,
) -> (r: Option<Settings>)
    ensures
        r is None <==> bad_mermaid_flag(*cli),
        r matches Some(out) ==> exists|a: Settings, b: Settings|
            (match file {
                Some(f) => file_over(base, *f, a),
                None => a == base,
            }) && env_over(a, env_theme, env_no_color, b) && cli_over(b, *cli, out),
{
    let mut s = base;
    match file {
        Some(f) => {
            let ghost s0 = s;
            s.apply_file(f);
            proof {
                assert(file_over(s0, *f, s)) by {
                    reveal(file_over);
                }
            }
        },
        None => {},
    }
    let ghost a = s;
    let ghost et = env_theme;
    let ghost en = env_no_color;
    s.apply_env_values(env_theme, env_no_color);
    let ghost b = s;
    if s.apply_cli(cli) {
        proof {
            assert(match file {
                Some(f) => file_over(base, *f, a),
                None => a == base,
            });
        }
        Some(s)
    } else {
        None
    }
}

} // verus!
