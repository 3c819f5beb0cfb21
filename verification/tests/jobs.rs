use objdiff::config::{AppConfig, ObjectConfig};
use objdiff::diff::{DiffAlg, DiffObjConfig};
use objdiff::jobs::objdiff::{
    command_line, failed_to_execute, finish_make, first_stage, join_parts, make_command,
    make_plan, next_stage, path_text, plan_build, plan_make, status_of, BuildConfig, BuildError,
    BuildPlan, BuildStage, BuildStatus, MakeCommand, ObjDiffConfig,
};

fn text(s: &str) -> String {
    s.to_string()
}

fn app_config() -> AppConfig {
    AppConfig {
        custom_make: Some(text("ninja")),
        selected_wsl_distro: Some(text("Ubuntu")),
        project_dir: Some(text("/proj")),
        target_obj_dir: Some(text("/proj/expected")),
        base_obj_dir: Some(text("/proj/build")),
        obj_path: Some(text("a.o")),
        selected_obj: Some(ObjectConfig {
            name: text("a"),
            target_path: Some(text("/proj/expected/a.o")),
            base_path: Some(text("/proj/build/a.o")),
            reverse_fn_order: None,
        }),
        build_base: true,
        build_target: false,
        watcher_change: false,
        watcher_enabled: true,
        auto_update_check: true,
        obj_change: false,
        watch_patterns: vec![text("*.c")],
        code_alg: DiffAlg::Levenshtein,
        data_alg: DiffAlg::Myers,
        relax_reloc_diffs: true,
        units: vec![],
        unit_nodes: vec![],
    }
}

#[test]
fn the_default_status_is_a_quiet_success() {
    let status = BuildStatus::default();
    assert_eq!(
        status,
        BuildStatus { success: true, cmdline: text(""), stdout: text(""), stderr: text("") }
    );
}

#[test]
fn settings_are_taken_over() {
    let config = app_config();
    let build = BuildConfig::from_config(&config);
    assert_eq!(
        build,
        BuildConfig {
            project_dir: Some(text("/proj")),
            custom_make: Some(text("ninja")),
            selected_wsl_distro: Some(text("Ubuntu")),
        }
    );
    let job = ObjDiffConfig::from_config(&config);
    assert_eq!(job.build_config, build);
    assert!(job.build_base && !job.build_target);
    assert_eq!(job.selected_obj, config.selected_obj);
    assert_eq!(job.code_alg, DiffAlg::Levenshtein);
    assert_eq!(job.data_alg, DiffAlg::Myers);
    assert!(job.relax_reloc_diffs);
    assert_eq!(
        job.diff_config(),
        DiffObjConfig {
            code_alg: DiffAlg::Levenshtein,
            data_alg: DiffAlg::Myers,
            relax_reloc_diffs: true
        }
    );
}

fn build_config(make: Option<&str>, distro: Option<&str>) -> BuildConfig {
    BuildConfig {
        project_dir: Some(text("/proj")),
        custom_make: make.map(text),
        selected_wsl_distro: distro.map(text),
    }
}

#[test]
fn without_a_project_directory_no_build_runs() {
    let config = BuildConfig { project_dir: None, custom_make: None, selected_wsl_distro: None };
    assert_eq!(
        plan_make(&config, &text("a.o"), false),
        Err(BuildStatus {
            success: false,
            cmdline: text(""),
            stdout: text(""),
            stderr: text("Missing project dir"),
        })
    );
}

#[test]
fn make_runs_in_the_project_directory() {
    assert_eq!(
        plan_make(&build_config(None, Some("Ubuntu")), &text("build/a.o"), false),
        Ok(MakeCommand {
            program: text("make"),
            current_dir: Some(text("/proj")),
            args: vec![text("build/a.o")],
            no_window: false,
        })
    );
    assert_eq!(
        plan_make(&build_config(Some("ninja"), None), &text("build/a.o"), false)
            .unwrap()
            .program,
        "ninja"
    );
}

#[test]
fn on_windows_make_may_run_in_a_distribution() {
    let cmd = make_command(
        &build_config(Some("ninja"), Some("Ubuntu")),
        &text("C:\\proj"),
        &text("build\\a.o"),
        text("build/a.o"),
        true,
    );
    assert_eq!(
        cmd,
        MakeCommand {
            program: text("wsl"),
            current_dir: None,
            args: vec![
                text("--cd"),
                text("C:\\proj"),
                text("-d"),
                text("Ubuntu"),
                text("--"),
                text("ninja"),
                text("build/a.o"),
            ],
            no_window: true,
        }
    );
    let cmd = make_command(
        &build_config(None, None),
        &text("C:\\proj"),
        &text("build\\a.o"),
        text("build/a.o"),
        true,
    );
    assert_eq!(
        cmd,
        MakeCommand {
            program: text("make"),
            current_dir: Some(text("C:\\proj")),
            args: vec![text("build/a.o")],
            no_window: true,
        }
    );
    let planned = plan_make(&build_config(None, Some("Debian")), &text("a.o"), true).unwrap();
    assert_eq!(planned.program, "wsl");
    assert_eq!(planned.args.len(), 7);
    assert_eq!(planned.args[3], "Debian");
    assert_eq!(planned.args[5], "make");
}

#[test]
fn parts_are_joined_by_single_spaces() {
    assert_eq!(join_parts(&vec![]), "");
    assert_eq!(join_parts(&vec![text("make")]), "make");
    assert_eq!(join_parts(&vec![text("make"), text("-j"), text("a b")]), "make -j a b");
    assert_eq!(join_parts(&vec![text(""), text("")]), " ");
}

#[test]
fn the_command_line_is_escaped() {
    let cmd = MakeCommand {
        program: text("make"),
        current_dir: None,
        args: vec![text("build/a.o"), text("two words"), text("")],
        no_window: false,
    };
    let line = command_line(&cmd);
    let quoted_unix = "make build/a.o 'two words' ''";
    let quoted_windows = "make build/a.o \"two words\" \"\"";
    assert!(line == quoted_unix || line == quoted_windows);
}

#[test]
fn a_command_of_plain_words_is_shown_as_it_is() {
    let cmd = MakeCommand {
        program: text("ninja"),
        current_dir: Some(text("/proj")),
        args: vec![text("-C"), text("build/a_b.o"), text("K=1,2+3")],
        no_window: false,
    };
    assert_eq!(command_line(&cmd), "ninja -C build/a_b.o K=1,2+3");
    let bare = MakeCommand { args: vec![], ..cmd };
    assert_eq!(command_line(&bare), "ninja");
}

#[test]
fn escaping_keeps_every_character_in_order() {
    let cmd = MakeCommand {
        program: text("my make"),
        current_dir: None,
        args: vec![text("it's"), text("a\"b")],
        no_window: false,
    };
    let line = command_line(&cmd);
    let mut rest = line.chars();
    for wanted in "my make it's a\"b".chars() {
        assert!(rest.any(|c| c == wanted));
    }
}

#[test]
fn the_steps_come_in_order() {
    assert_eq!(first_stage(), BuildStage::BuildTarget);
    assert_eq!(next_stage(BuildStage::BuildTarget), Some(BuildStage::BuildBase));
    assert_eq!(next_stage(BuildStage::BuildBase), Some(BuildStage::LoadTarget));
    assert_eq!(next_stage(BuildStage::LoadTarget), Some(BuildStage::LoadBase));
    assert_eq!(next_stage(BuildStage::LoadBase), Some(BuildStage::Diff));
    assert_eq!(next_stage(BuildStage::Diff), Some(BuildStage::Complete));
    assert_eq!(next_stage(BuildStage::Complete), None);
}

#[test]
fn a_side_that_is_not_built_has_the_default_status() {
    assert_eq!(status_of(None), BuildStatus::default());
    let failed = failed_to_execute();
    assert_eq!(status_of(Some(failed.clone())), failed);
}

#[test]
fn a_directory_is_shown_relative_to_the_home_directory() {
    assert_eq!(path_text(&None, None, '/'), "[none]");
    assert_eq!(path_text(&None, Some(text("x")), '/'), "[none]");
    assert_eq!(path_text(&Some(text("/home/me/proj")), Some(text("proj")), '/'), "~/proj");
    assert_eq!(path_text(&Some(text("C:\\Users\\me\\p")), Some(text("p")), '\\'), "~\\p");
    assert_eq!(path_text(&Some(text("/home/me")), Some(text("")), '/'), "~/");
    assert_eq!(path_text(&Some(text("/opt/proj")), None, '/'), "/opt/proj");
}

#[test]
fn a_build_succeeds_with_exit_code_zero() {
    let status = finish_make(text("make a.o"), Some(0), b"ok\n".to_vec(), "warn \u{e9}".as_bytes().to_vec());
    assert_eq!(
        status,
        BuildStatus {
            success: true,
            cmdline: text("make a.o"),
            stdout: text("ok\n"),
            stderr: text("warn \u{e9}"),
        }
    );
    assert!(!finish_make(text("make"), Some(2), vec![], vec![]).success);
    assert!(!finish_make(text("make"), None, vec![], vec![]).success);
    assert_eq!(finish_make(text("make"), Some(2), vec![], b"boom".to_vec()).stderr, "boom");
}

#[test]
fn output_that_is_no_text_fails_the_build() {
    let status = finish_make(text("make"), Some(0), vec![0xff, 0xfe], b"fine".to_vec());
    assert_eq!(
        status,
        BuildStatus {
            success: false,
            cmdline: text(""),
            stdout: text(""),
            stderr: text("Failed to process stdout"),
        }
    );
    let status = finish_make(text("make"), Some(0), b"fine".to_vec(), vec![0xc0]);
    assert_eq!(status.stderr, "Failed to process stderr");
    assert!(!status.success);
    let status = finish_make(text("make"), Some(0), vec![0x80], vec![0x80]);
    assert_eq!(status.stderr, "Failed to process stdout");
}

#[test]
fn a_program_that_does_not_start_fails_the_build() {
    let status = failed_to_execute();
    assert!(!status.success);
    assert_eq!(status.stderr, "Failed to execute build");
    assert_eq!(status.cmdline, "");
}

fn job(target: Option<&str>, base: Option<&str>, build_target: bool, build_base: bool) -> ObjDiffConfig {
    ObjDiffConfig {
        build_config: build_config(None, None),
        build_base,
        build_target,
        selected_obj: Some(ObjectConfig {
            name: text("a"),
            target_path: target.map(text),
            base_path: base.map(text),
            reverse_fn_order: None,
        }),
        code_alg: DiffAlg::Patience,
        data_alg: DiffAlg::Patience,
        relax_reloc_diffs: false,
    }
}

#[test]
fn a_job_needs_an_object_and_a_project() {
    let mut config = job(Some("/proj/a.o"), None, true, true);
    config.selected_obj = None;
    assert_eq!(plan_build(&config), Err(BuildError::MissingObjPath));
    assert_eq!(BuildError::MissingObjPath.message(), "Missing obj path");
    config.build_config.project_dir = None;
    assert_eq!(plan_build(&config), Err(BuildError::MissingObjPath));
    let mut config = job(Some("/proj/a.o"), None, true, true);
    config.build_config.project_dir = None;
    assert_eq!(plan_build(&config), Err(BuildError::MissingProjectDir));
    assert_eq!(BuildError::MissingProjectDir.message(), "Missing project dir");
}

#[test]
fn objects_must_lie_in_the_project() {
    let error = plan_build(&job(Some("/else/a.o"), Some("/proj/b.o"), true, true)).unwrap_err();
    assert_eq!(
        error,
        BuildError::TargetOutside { path: text("/else/a.o"), project_dir: text("/proj") }
    );
    assert_eq!(error.message(), "Target path '/else/a.o' doesn't begin with '/proj'");
    let error = plan_build(&job(Some("/proj/a.o"), Some("/projects/b.o"), true, true)).unwrap_err();
    assert_eq!(
        error,
        BuildError::BaseOutside { path: text("/projects/b.o"), project_dir: text("/proj") }
    );
    assert_eq!(error.message(), "Base path '/projects/b.o' doesn't begin with '/proj'");
}

#[test]
fn the_plan_counts_the_steps() {
    let plan = plan_build(&job(Some("/proj/expected/a.o"), Some("/proj/build/a.o"), true, true)).unwrap();
    assert_eq!(
        plan,
        BuildPlan {
            target_rel: Some(text("expected/a.o")),
            base_rel: Some(text("build/a.o")),
            build_target: true,
            build_base: true,
            total: 5,
        }
    );
    assert_eq!(plan_build(&job(Some("/proj/a.o"), Some("/proj/b.o"), false, true)).unwrap().total, 4);
    assert_eq!(plan_build(&job(None, Some("/proj/b.o"), true, false)).unwrap().total, 3);
    assert_eq!(
        plan_build(&job(None, None, true, false)),
        Ok(BuildPlan {
            target_rel: None,
            base_rel: None,
            build_target: true,
            build_base: false,
            total: 3,
        })
    );
    assert_eq!(plan_build(&job(Some("/proj/a.o"), None, true, true)).unwrap().total, 4);
}

#[test]
fn the_plan_is_made_from_the_relative_paths() {
    let config = job(Some("/proj/a.o"), None, true, true);
    assert_eq!(
        make_plan(&config, Some(text("a.o")), Some(text("ignored"))),
        Ok(BuildPlan {
            target_rel: Some(text("a.o")),
            base_rel: None,
            build_target: true,
            build_base: true,
            total: 4,
        })
    );
    assert_eq!(
        make_plan(&config, None, None),
        Err(BuildError::TargetOutside { path: text("/proj/a.o"), project_dir: text("/proj") })
    );
}

#[test]
fn the_steps_of_a_job() {
    let plan = BuildPlan {
        target_rel: Some(text("expected/a.o")),
        base_rel: None,
        build_target: true,
        build_base: true,
        total: 4,
    };
    assert!(plan.runs(BuildStage::BuildTarget, true, true));
    assert!(!plan.runs(BuildStage::BuildBase, true, true));
    assert!(plan.runs(BuildStage::LoadTarget, true, false));
    assert!(!plan.runs(BuildStage::LoadTarget, false, true));
    assert!(!plan.runs(BuildStage::LoadBase, true, true));
    assert!(plan.runs(BuildStage::Diff, false, false));
    assert!(plan.runs(BuildStage::Complete, false, false));
    let idle = BuildPlan { build_target: false, ..plan.clone() };
    assert!(!idle.runs(BuildStage::BuildTarget, true, true));
    assert!(idle.runs(BuildStage::LoadTarget, true, true));

    assert_eq!(plan.progress(BuildStage::BuildTarget), 0);
    assert_eq!(plan.progress(BuildStage::BuildBase), 0);
    assert_eq!(plan.progress(BuildStage::LoadTarget), 2);
    assert_eq!(plan.progress(BuildStage::LoadBase), 3);
    assert_eq!(plan.progress(BuildStage::Diff), 4);
    assert_eq!(plan.progress(BuildStage::Complete), 4);

    assert_eq!(plan.message(BuildStage::BuildTarget), "Building target expected/a.o");
    assert_eq!(plan.message(BuildStage::BuildBase), "Building base ");
    assert_eq!(plan.message(BuildStage::LoadTarget), "Loading target expected/a.o");
    assert_eq!(plan.message(BuildStage::LoadBase), "Loading base ");
    assert_eq!(plan.message(BuildStage::Diff), "Performing diff");
    assert_eq!(plan.message(BuildStage::Complete), "Complete");
}

#[test]
fn settings_change_with_the_project() {
    let mut config = app_config();
    config.obj_change = false;
    config.set_obj_path(text("b.o"));
    assert_eq!(config.obj_path, Some(text("b.o")));
    assert!(config.obj_change);
    assert_eq!(config.project_dir, Some(text("/proj")));

    let mut config = app_config();
    config.set_target_obj_dir(text("/proj/orig"));
    assert_eq!(config.target_obj_dir, Some(text("/proj/orig")));
    assert_eq!(config.base_obj_dir, Some(text("/proj/build")));
    assert_eq!(config.obj_path, None);
    assert_eq!(config.selected_obj, None);

    let mut config = app_config();
    config.set_base_obj_dir(text("/proj/out"));
    assert_eq!(config.base_obj_dir, Some(text("/proj/out")));
    assert_eq!(config.target_obj_dir, Some(text("/proj/expected")));
    assert_eq!(config.obj_path, None);

    let mut config = app_config();
    config.set_project_dir(text("/other"));
    assert_eq!(config.project_dir, Some(text("/other")));
    assert_eq!(config.target_obj_dir, None);
    assert_eq!(config.base_obj_dir, None);
    assert_eq!(config.obj_path, None);
    assert!(config.watcher_change && config.obj_change);
    assert_eq!(config.custom_make, Some(text("ninja")));
}
