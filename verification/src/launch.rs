//! Starting the application: which executable, in which directory, with which
//! environment. Starting the process itself is left to the caller.

use vstd::prelude::*;

verus! {

/// One variable of a process environment.
#[derive(Debug)]
pub struct EnvPair {
    pub name: String,
    pub value: String,
}

/// The names and values of a list of variables, as texts.
pub open spec fn env_texts(vars: Seq<EnvPair>) -> Seq<(Seq<char>, Seq<char>)> {
    vars.map_values(|v: EnvPair| (v.name@, v.value@))
}

/// What to start, where, and with which environment.
#[derive(Debug)]
pub struct LaunchPlan {
    pub executable: String,
    pub working_dir: String,
    pub environment: Vec<EnvPair>,
}

/// Why the application is not started.
#[derive(Debug)]
pub enum LaunchError {
    /// The executable does not exist; with its path.
    ExecutableNotFound(String),
}

impl LaunchError {
    /// The error in words.
    pub fn message(&self) -> (text: String)
        ensures
            match *self {
                LaunchError::ExecutableNotFound(path) => text@
                    == "Houdini executable not found: "@ + path@,
            },
    {
        match self {
            LaunchError::ExecutableNotFound(path) => {
                String::from_str("Houdini executable not found: ").concat(path.as_str())
            },
        }
    }
}

/// The environment of the started process: the inherited variables, then the
/// package directory, then the config root, then the caller's own variables.
pub open spec fn launch_env(
    inherited: Seq<(Seq<char>, Seq<char>)>,
    package_dir: Seq<char>,
    config_root: Seq<char>,
    env_vars: Seq<(Seq<char>, Seq<char>)>,
) -> Seq<(Seq<char>, Seq<char>)> {
    inherited + seq![("HOUDINI_PACKAGE_DIR"@, package_dir), ("CONFIG_ROOT_PATH"@, config_root)]
        + env_vars
}

/// Builds the environment of the started process.
pub fn launch_environment(
    inherited: Vec<EnvPair>,
    package_dir: String,
    config_root: String,
    env_vars: Vec<EnvPair>,
) -> (environment: Vec<EnvPair>)
    ensures
        env_texts(environment@) == launch_env(
            env_texts(inherited@),
            package_dir@,
            config_root@,
            env_texts(env_vars@),
        ),
{
    let ghost first = env_texts(inherited@);
    let ghost wanted = launch_env(
        env_texts(inherited@),
        package_dir@,
        config_root@,
        env_texts(env_vars@),
    );
    let mut environment = inherited;
    environment.push(EnvPair { name: String::from_str("HOUDINI_PACKAGE_DIR"), value: package_dir });
    environment.push(EnvPair { name: String::from_str("CONFIG_ROOT_PATH"), value: config_root });
    let ghost head = env_texts(environment@);
    assert(head =~= first + seq![
        ("HOUDINI_PACKAGE_DIR"@, package_dir@),
        ("CONFIG_ROOT_PATH"@, config_root@),
    ]);
    let mut env_vars = env_vars;
    let ghost extra = env_texts(env_vars@);
    let mut i: usize = 0;
    assert(head + extra.take(0) =~= head);
    while i < env_vars.len()
        invariant
            i <= env_vars.len(),
            env_texts(env_vars@) == extra,
            env_texts(environment@) == head + extra.take(i as int),
        decreases env_vars.len() - i,
    {
        let pair = EnvPair { name: env_vars[i].name.clone(), value: env_vars[i].value.clone() };
        let ghost before = environment@;
        environment.push(pair);
        proof {
            assert(extra[i as int] == (env_vars@[i as int].name@, env_vars@[i as int].value@));
            assert(env_texts(environment@) =~= env_texts(before).push(extra[i as int]));
            assert(head + extra.take(i + 1) =~= (head + extra.take(i as int)).push(
                extra[i as int],
            ));
        }
        i += 1;
    }
    assert(extra.take(extra.len() as int) =~= extra);
    assert(head + extra =~= wanted);
    environment
}

/// Plans the start of the application. Nothing is started where the
/// executable does not exist.
pub fn launch_houdini(
    exe_path: String,
    exe_exists: bool,
    package_dir: String,
    config_root: String,
    env_vars: Vec<EnvPair>,
    inherited: Vec<EnvPair>,
    working_dir: String,
) -> (out: Result<LaunchPlan, LaunchError>)
    ensures
        !exe_exists ==> (out matches Err(LaunchError::ExecutableNotFound(path)) && path@
            == exe_path@),
        exe_exists ==> (out matches Ok(plan) && plan.executable@ == exe_path@ && plan.working_dir@
            == working_dir@ && env_texts(plan.environment@) == launch_env(
            env_texts(inherited@),
            package_dir@,
            config_root@,
            env_texts(env_vars@),
        )),
{
    if !exe_exists {
        return Err(LaunchError::ExecutableNotFound(exe_path));
    }
    let environment = launch_environment(inherited, package_dir, config_root, env_vars);
    Ok(LaunchPlan { executable: exe_path, working_dir, environment })
}

} // verus!
