use vstd::prelude::*;
use crate::text::{parse_usize, parse_usize_spec, str_eq};

verus! {

/// Operating mode: interactive menu, single scan with reports, benchmark
/// sweep, stress sweep, or raw disk probe.
#[derive(Clone, Copy, PartialEq, Eq, Structural, Debug)]
pub enum Md {
    Menu,
    DirMap,
    Bench,
    Stress,
    Disk,
}

/// Report formats written by a single scan.
#[derive(Clone, Copy, PartialEq, Eq, Structural, Debug)]
pub enum Fm {
    Text,
    Bin,
    Both,
}

/// Sweep shape preset for the benchmark and stress modes.
#[derive(Clone, Copy, PartialEq, Eq, Structural, Debug)]
pub enum Ps {
    Light,
    Balanced,
    Hard,
    Extreme,
}

/// A fully resolved run configuration.
#[derive(Clone, Debug)]
pub struct Cfg {
    pub md: Md,
    pub root: String,
    pub out: String,
    pub wk: Option<usize>,
    pub fast: bool,
    pub fm: Fm,
    pub ps: Ps,
    pub runs: usize,
    pub name: String,
}

/// Mathematical view of a configuration.
pub struct CfgV {
    pub md: Md,
    pub root: Seq<char>,
    pub out: Seq<char>,
    pub wk: Option<usize>,
    pub fast: bool,
    pub fm: Fm,
    pub ps: Ps,
    pub runs: usize,
    pub name: Seq<char>,
}

impl View for Cfg {
    type V = CfgV;

    open spec fn view(&self) -> CfgV {
        CfgV {
            md: self.md,
            root: self.root@,
            out: self.out@,
            wk: self.wk,
            fast: self.fast,
            fm: self.fm,
            ps: self.ps,
            runs: self.runs,
            name: self.name@,
        }
    }
}

/// The configuration before any flag or answer is applied.
pub open spec fn default_cfg_spec() -> CfgV {
    CfgV {
        md: Md::Menu,
        root: "/"@,
        out: "rust_nator/out"@,
        wk: None,
        fast: false,
        fm: Fm::Both,
        ps: Ps::Balanced,
        runs: 1,
        name: "run"@,
    }
}

/// The effect of one value-taking flag on the configuration.
pub open spec fn arg_apply(c: CfgV, a: Seq<char>, v: Seq<char>) -> CfgV {
    if a == "--mode"@ {
        CfgV {
            md: if v == "map"@ {
                Md::DirMap
            } else if v == "bench"@ {
                Md::Bench
            } else if v == "stress"@ {
                Md::Stress
            } else if v == "disk"@ {
                Md::Disk
            } else {
                Md::Menu
            },
            ..c
        }
    } else if a == "--root"@ {
        CfgV { root: v, ..c }
    } else if a == "--out"@ {
        CfgV { out: v, ..c }
    } else if a == "--workers"@ {
        CfgV { wk: parse_usize_spec(v), ..c }
    } else if a == "--fmt"@ {
        CfgV {
            fm: if v == "text"@ {
                Fm::Text
            } else if v == "bin"@ {
                Fm::Bin
            } else {
                Fm::Both
            },
            ..c
        }
    } else if a == "--preset"@ {
        CfgV {
            ps: if v == "light"@ {
                Ps::Light
            } else if v == "hard"@ {
                Ps::Hard
            } else if v == "extreme"@ {
                Ps::Extreme
            } else {
                Ps::Balanced
            },
            ..c
        }
    } else if a == "--runs"@ {
        CfgV {
            runs: (match parse_usize_spec(v) {
                Some(x) => if x >= 1 {
                    x
                } else {
                    1
                },
                None => 1,
            }),
            ..c
        }
    } else if a == "--name"@ {
        CfgV { name: v, ..c }
    } else {
        c
    }
}

/// True for the flags that consume the following token as their value.
pub open spec fn is_val_flag(a: Seq<char>) -> bool {
    a == "--mode"@ || a == "--root"@ || a == "--out"@ || a == "--workers"@ || a == "--fmt"@ || a
        == "--preset"@ || a == "--runs"@ || a == "--name"@
}

/// Left fold of the argument tokens over the configuration, from token
/// `i` on: `--fast` sets the flag, a value flag consumes the next token
/// when there is one, anything else is skipped.
pub open spec fn args_fold(c: CfgV, args: Seq<Seq<char>>, i: int) -> CfgV
    decreases args.len() - i,
{
    if i < 0 || i >= args.len() {
        c
    } else {
        let a = args[i];
        if a == "--fast"@ {
            args_fold(CfgV { fast: true, ..c }, args, i + 1)
        } else if is_val_flag(a) {
            if i + 1 < args.len() {
                args_fold(arg_apply(c, a, args[i + 1]), args, i + 2)
            } else {
                args_fold(c, args, i + 1)
            }
        } else {
            args_fold(c, args, i + 1)
        }
    }
}

/// What `arg` returns for a list of argument tokens.
pub open spec fn arg_spec(args: Seq<Seq<char>>) -> CfgV {
    args_fold(default_cfg_spec(), args, 0)
}

/// Builds the run configuration from the command-line tokens after the
/// program name: later flags override earlier ones, a flag missing its
/// value is ignored, and unknown tokens are skipped.
pub fn arg(args: &Vec<String>) -> (c: Cfg)
    ensures
        c@ == arg_spec(args.deep_view()),
{
    let ghost av = args.deep_view();
    let mut cfg = Cfg {
        md: Md::Menu,
        root: String::from_str("/"),
        out: String::from_str("rust_nator/out"),
        wk: None,
        fast: false,
        fm: Fm::Both,
        ps: Ps::Balanced,
        runs: 1,
        name: String::from_str("run"),
    };
    proof {
        assert(cfg@ == default_cfg_spec());
    }
    let n = args.len();
    let mut i: usize = 0;
    while i < n
        invariant
            n == args@.len(),
            av == args.deep_view(),
            i <= n,
            args_fold(cfg@, av, i as int) == args_fold(default_cfg_spec(), av, 0),
        decreases n - i,
    {
        proof {
            assert(av[i as int] == args@[i as int]@);
        }
        let a = &args[i];
        if str_eq(a.as_str(), "--fast") {
            cfg.fast = true;
            i = i + 1;
        } else if str_eq(a.as_str(), "--mode") {
            if i + 1 < n {
                proof {
                    assert(av[i + 1] == args@[i + 1]@);
                }
                let v = &args[i + 1];
                cfg.md = if str_eq(v.as_str(), "map") {
                    Md::DirMap
                } else if str_eq(v.as_str(), "bench") {
                    Md::Bench
                } else if str_eq(v.as_str(), "stress") {
                    Md::Stress
                } else if str_eq(v.as_str(), "disk") {
                    Md::Disk
                } else {
                    Md::Menu
                };
                i = i + 2;
            } else {
                i = i + 1;
            }
        } else if str_eq(a.as_str(), "--root") {
            if i + 1 < n {
                proof {
                    assert(av[i + 1] == args@[i + 1]@);
                }
                cfg.root = args[i + 1].clone();
                i = i + 2;
            } else {
                i = i + 1;
            }
        } else if str_eq(a.as_str(), "--out") {
            if i + 1 < n {
                proof {
                    assert(av[i + 1] == args@[i + 1]@);
                }
                cfg.out = args[i + 1].clone();
                i = i + 2;
            } else {
                i = i + 1;
            }
        } else if str_eq(a.as_str(), "--workers") {
            if i + 1 < n {
                proof {
                    assert(av[i + 1] == args@[i + 1]@);
                }
                cfg.wk = parse_usize(args[i + 1].as_str());
                i = i + 2;
            } else {
                i = i + 1;
            }
        } else if str_eq(a.as_str(), "--fmt") {
            if i + 1 < n {
                proof {
                    assert(av[i + 1] == args@[i + 1]@);
                }
                let v = &args[i + 1];
                cfg.fm = if str_eq(v.as_str(), "text") {
                    Fm::Text
                } else if str_eq(v.as_str(), "bin") {
                    Fm::Bin
                } else {
                    Fm::Both
                };
                i = i + 2;
            } else {
                i = i + 1;
            }
        } else if str_eq(a.as_str(), "--preset") {
            if i + 1 < n {
                proof {
                    assert(av[i + 1] == args@[i + 1]@);
                }
                let v = &args[i + 1];
                cfg.ps = if str_eq(v.as_str(), "light") {
                    Ps::Light
                } else if str_eq(v.as_str(), "hard") {
                    Ps::Hard
                } else if str_eq(v.as_str(), "extreme") {
                    Ps::Extreme
                } else {
                    Ps::Balanced
                };
                i = i + 2;
            } else {
                i = i + 1;
            }
        } else if str_eq(a.as_str(), "--runs") {
            if i + 1 < n {
                proof {
                    assert(av[i + 1] == args@[i + 1]@);
                }
                let p = parse_usize(args[i + 1].as_str());
                cfg.runs = match p {
                    Some(x) => if x >= 1 {
                        x
                    } else {
                        1
                    },
                    None => 1,
                };
                i = i + 2;
            } else {
                i = i + 1;
            }
        } else if str_eq(a.as_str(), "--name") {
            if i + 1 < n {
                proof {
                    assert(av[i + 1] == args@[i + 1]@);
                }
                cfg.name = args[i + 1].clone();
                i = i + 2;
            } else {
                i = i + 1;
            }
        } else {
            i = i + 1;
        }
    }
    cfg
}

/// Applies the interactive answers to a configuration: the menu choice
/// picks the mode (anything unrecognized means the map scan), a
/// non-empty root or output answer replaces the path, and fast mode is
/// on exactly when the answer is `y` in either case.
pub fn menu_apply(cfg: Cfg, choice: &str, root_ans: &str, fast_ans: &str, out_ans: &str) -> (r:
    Cfg)
    ensures
        r.md == (if choice@ == "1"@ {
            Md::DirMap
        } else if choice@ == "2"@ {
            Md::Bench
        } else if choice@ == "3"@ {
            Md::Stress
        } else if choice@ == "4"@ {
            Md::Disk
        } else {
            Md::DirMap
        }),
        r.root@ == (if root_ans@.len() == 0 {
            cfg.root@
        } else {
            root_ans@
        }),
        r.fast == (fast_ans@ == "y"@ || fast_ans@ == "Y"@),
        r.out@ == (if out_ans@.len() == 0 {
            cfg.out@
        } else {
            out_ans@
        }),
        r.wk == cfg.wk,
        r.fm == cfg.fm,
        r.ps == cfg.ps,
        r.runs == cfg.runs,
        r.name@ == cfg.name@,
{
    let mut c = cfg;
    c.md = if str_eq(choice, "1") {
        Md::DirMap
    } else if str_eq(choice, "2") {
        Md::Bench
    } else if str_eq(choice, "3") {
        Md::Stress
    } else if str_eq(choice, "4") {
        Md::Disk
    } else {
        Md::DirMap
    };
    if root_ans.unicode_len() > 0 {
        c.root = String::from_str(root_ans);
    }
    c.fast = str_eq(fast_ans, "y") || str_eq(fast_ans, "Y");
    if out_ans.unicode_len() > 0 {
        c.out = String::from_str(out_ans);
    }
    c
}

} // verus!
