//! The sweep's configuration, and resolving its paths against the
//! directory of the configuration file.
use vstd::prelude::*;
use crate::text::chars_of;
use crate::text::text_of;
use crate::series::texts_view;

verus! {

/// A set of regions shown together, under a label.
pub struct RegionConfig {
    pub label: String,
    pub regions: Vec<String>,
}

/// A table's title and the metrics it shows.
pub struct TableConfig {
    pub title: String,
    pub metrics: Vec<String>,
}

/// One run of the workload: its label and its arguments.
pub struct TestConfig {
    pub label: String,
    pub params: Vec<String>,
}

/// Everything a sweep needs.
pub struct Config {
    pub target_paths: Vec<String>,
    pub output_path: String,
    pub core: u8,
    pub tests: Vec<TestConfig>,
    pub groups: Vec<String>,
    pub regions: Vec<RegionConfig>,
    pub tables: Vec<TableConfig>,
}

/// `p` taken relative to `dir`: an absolute `p` stands alone; otherwise it
/// follows `dir`, with one separator between them.
pub open spec fn join_path(dir: Seq<char>, p: Seq<char>) -> Seq<char> {
    if p.len() > 0 && p[0] == '/' {
        p
    } else if dir.len() == 0 {
        p
    } else if dir.last() == '/' {
        dir + p
    } else {
        dir + seq!['/'] + p
    }
}

/// Joins `p` to `dir` as a path.
pub fn join_path_exec(dir: &String, p: &String) -> (r: String)
    ensures
        r@ == join_path(dir@, p@),
{
    let pc = chars_of(p.as_str());
    if pc.len() > 0 && pc[0] == '/' {
        return p.clone();
    }
    let mut out = chars_of(dir.as_str());
    if out.len() == 0 {
        return p.clone();
    }
    if out[out.len() - 1] != '/' {
        out.push('/');
    }
    let ghost start = out@;
    let mut i: usize = 0;
    while i < pc.len()
        invariant
            i <= pc@.len(),
            out@ == start + pc@.take(i as int),
        decreases pc@.len() - i,
    {
        out.push(pc[i]);
        i = i + 1;
        proof {
            assert(out@ =~= start + pc@.take(i as int));
        }
    }
    proof {
        assert(pc@.take(i as int) =~= pc@);
    }
    text_of(&out)
}

/// The target paths, each taken relative to `config_dir`.
pub fn relativize_targets(config: &Config, config_dir: &String) -> (r: Vec<String>)
    ensures
        r@.len() == config.target_paths@.len(),
        forall|i: int|
            0 <= i < r@.len() ==> #[trigger] r@[i]@ == join_path(
                config_dir@,
                config.target_paths@[i]@,
            ),
{
    let mut r: Vec<String> = Vec::new();
    let mut i: usize = 0;
    while i < config.target_paths.len()
        invariant
            i <= config.target_paths@.len(),
            r@.len() == i,
            forall|j: int|
                0 <= j < i ==> #[trigger] r@[j]@ == join_path(config_dir@, config.target_paths@[j]@),
        decreases config.target_paths@.len() - i,
    {
        r.push(join_path_exec(config_dir, &config.target_paths[i]));
        i = i + 1;
    }
    r
}

/// The output path taken relative to `config_dir`.
pub fn relativize_output(config: &Config, config_dir: &String) -> (r: String)
    ensures
        r@ == join_path(config_dir@, config.output_path@),
{
    join_path_exec(config_dir, &config.output_path)
}

/// A configuration with its target and output paths taken relative to
/// `config_dir`, the directory of the file it was read from; the rest is
/// kept.
pub fn load_config(config: Config, config_dir: &String) -> (r: Config)
    ensures
        r.target_paths@.len() == config.target_paths@.len(),
        forall|i: int|
            0 <= i < r.target_paths@.len() ==> #[trigger] r.target_paths@[i]@ == join_path(
                config_dir@,
                config.target_paths@[i]@,
            ),
        r.output_path@ == join_path(config_dir@, config.output_path@),
        r.core == config.core,
        r.tests@ == config.tests@,
        r.groups@ == config.groups@,
        r.regions@ == config.regions@,
        r.tables@ == config.tables@,
{
    let targets = relativize_targets(&config, config_dir);
    let output = relativize_output(&config, config_dir);
    let mut config = config;
    config.target_paths = targets;
    config.output_path = output;
    config
}

/// The runs of one test under one group: one for each target, in order,
/// each the target followed by the test's arguments.
pub open spec fn test_runs(group: Seq<char>, params: Seq<Seq<char>>, targets: Seq<Seq<char>>) -> Seq<
    (Seq<char>, Seq<Seq<char>>),
> {
    targets.map_values(|p: Seq<char>| (group, seq![p] + params))
}

/// The runs of one group: each test in order, each over every target.
pub open spec fn group_runs(group: Seq<char>, tests: Seq<Seq<Seq<char>>>, targets: Seq<Seq<char>>) -> Seq<
    (Seq<char>, Seq<Seq<char>>),
>
    decreases tests.len(),
{
    if tests.len() == 0 {
        Seq::empty()
    } else {
        group_runs(group, tests.drop_last(), targets) + test_runs(group, tests.last(), targets)
    }
}

/// The runs of a sweep: each group in order, each over every test.
pub open spec fn sweep_of(groups: Seq<Seq<char>>, tests: Seq<Seq<Seq<char>>>, targets: Seq<Seq<char>>) -> Seq<
    (Seq<char>, Seq<Seq<char>>),
>
    decreases groups.len(),
{
    if groups.len() == 0 {
        Seq::empty()
    } else {
        sweep_of(groups.drop_last(), tests, targets) + group_runs(groups.last(), tests, targets)
    }
}

pub open spec fn runs_view(v: Seq<(String, Vec<String>)>) -> Seq<(Seq<char>, Seq<Seq<char>>)> {
    v.map_values(|e: (String, Vec<String>)| (e.0@, texts_view(e.1@)))
}

pub open spec fn test_params(tests: Seq<TestConfig>) -> Seq<Seq<Seq<char>>> {
    tests.map_values(|t: TestConfig| texts_view(t.params@))
}

/// The sweep's runs in the order they are made, which is the order that
/// lines samples up with the x axis: for each group, for each test, for
/// each target, the group and the program's arguments (the target, then
/// the test's arguments).
pub fn sweep_runs(config: &Config) -> (r: Vec<(String, Vec<String>)>)
    ensures
        runs_view(r@) == sweep_of(
            texts_view(config.groups@),
            test_params(config.tests@),
            texts_view(config.target_paths@),
        ),
{
    let ghost gs = texts_view(config.groups@);
    let ghost ts = test_params(config.tests@);
    let ghost ps = texts_view(config.target_paths@);
    let mut r: Vec<(String, Vec<String>)> = Vec::new();
    let mut g: usize = 0;
    proof {
        assert(runs_view(r@) =~= sweep_of(gs.take(0), ts, ps));
    }
    while g < config.groups.len()
        invariant
            g <= config.groups@.len(),
            gs == texts_view(config.groups@),
            ts == test_params(config.tests@),
            ps == texts_view(config.target_paths@),
            runs_view(r@) == sweep_of(gs.take(g as int), ts, ps),
        decreases config.groups@.len() - g,
    {
        let ghost before_g = runs_view(r@);
        let mut t: usize = 0;
        proof {
            assert(ts.take(0) =~= Seq::<Seq<Seq<char>>>::empty());
            assert(runs_view(r@) =~= before_g + group_runs(gs[g as int], ts.take(0), ps));
        }
        while t < config.tests.len()
            invariant
                g < config.groups@.len(),
                t <= config.tests@.len(),
                gs == texts_view(config.groups@),
                ts == test_params(config.tests@),
                ps == texts_view(config.target_paths@),
                runs_view(r@) == before_g + group_runs(gs[g as int], ts.take(t as int), ps),
            decreases config.tests@.len() - t,
        {
            let ghost before_t = runs_view(r@);
            let test = &config.tests[t];
            let mut p: usize = 0;
            proof {
                assert(runs_view(r@) =~= before_t + test_runs(gs[g as int], ts[t as int], ps.take(0)));
            }
            while p < config.target_paths.len()
                invariant
                    g < config.groups@.len(),
                    t < config.tests@.len(),
                    p <= config.target_paths@.len(),
                    gs == texts_view(config.groups@),
                    ts == test_params(config.tests@),
                    ps == texts_view(config.target_paths@),
                    test == &config.tests@[t as int],
                    runs_view(r@) == before_t + test_runs(gs[g as int], ts[t as int], ps.take(p as int)),
                decreases config.target_paths@.len() - p,
            {
                let mut program: Vec<String> = Vec::new();
                program.push(config.target_paths[p].clone());
                let mut k: usize = 0;
                while k < test.params.len()
                    invariant
                        k <= test.params@.len(),
                        p < config.target_paths@.len(),
                        texts_view(program@) == seq![config.target_paths@[p as int]@] + texts_view(test.params@).take(k as int),
                    decreases test.params@.len() - k,
                {
                    let ghost pv = texts_view(program@);
                    program.push(test.params[k].clone());
                    k = k + 1;
                    proof {
                        assert(texts_view(program@) =~= pv.push(test.params@[k - 1]@));
                        assert(texts_view(program@) =~= seq![config.target_paths@[p as int]@] + texts_view(test.params@).take(k as int));
                    }
                }
                proof {
                    assert(texts_view(test.params@).take(k as int) =~= texts_view(test.params@));
                }
                let ghost rv = runs_view(r@);
                let item = (config.groups[g].clone(), program);
                r.push(item);
                p = p + 1;
                proof {
                    assert(runs_view(r@) =~= rv.push((gs[g as int], seq![ps[p - 1]] + ts[t as int])));
                    assert(test_runs(gs[g as int], ts[t as int], ps.take(p as int)) =~= test_runs(gs[g as int], ts[t as int], ps.take(p - 1)).push((gs[g as int], seq![ps[p - 1]] + ts[t as int])));
                    assert(runs_view(r@) =~= before_t + test_runs(gs[g as int], ts[t as int], ps.take(p as int)));
                }
            }
            t = t + 1;
            proof {
                assert(ps.take(p as int) =~= ps);
                assert(ts.take(t as int).drop_last() =~= ts.take(t - 1));
                assert(runs_view(r@) =~= before_g + group_runs(gs[g as int], ts.take(t as int), ps));
            }
        }
        g = g + 1;
        proof {
            assert(ts.take(t as int) =~= ts);
            assert(gs.take(g as int).drop_last() =~= gs.take(g - 1));
        }
    }
    proof {
        assert(gs.take(g as int) =~= gs);
    }
    r
}

} // verus!
