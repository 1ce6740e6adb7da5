//! A command prepared for running, which can be shown before it runs.
use vstd::prelude::*;
use crate::text::push_char;

verus! {

/// A program with its environment settings and arguments.
pub struct Cmd {
    program: String,
    args: Vec<String>,
    envs: Vec<(String, String)>,
}

/// What a `Cmd` holds, as character sequences.
pub struct CmdView {
    pub program: Seq<char>,
    pub args: Seq<Seq<char>>,
    pub envs: Seq<(Seq<char>, Seq<char>)>,
}

/// The views of a sequence of strings.
pub open spec fn string_views(v: Seq<String>) -> Seq<Seq<char>> {
    v.map_values(|s: String| s@)
}

/// The views of a sequence of environment settings.
pub open spec fn env_views(v: Seq<(String, String)>) -> Seq<(Seq<char>, Seq<char>)> {
    v.map_values(|p: (String, String)| (p.0@, p.1@))
}

impl View for Cmd {
    type V = CmdView;

    closed spec fn view(&self) -> CmdView {
        CmdView {
            program: self.program@,
            args: string_views(self.args@),
            envs: env_views(self.envs@),
        }
    }
}

/// The environment settings as shown: `KEY=value ` for each, in order.
pub open spec fn env_text(envs: Seq<(Seq<char>, Seq<char>)>) -> Seq<char>
    decreases envs.len(),
{
    if envs.len() == 0 {
        Seq::empty()
    } else {
        env_text(envs.drop_last()) + envs.last().0 + seq!['='] + envs.last().1 + seq![' ']
    }
}

/// `args` joined with single spaces.
pub open spec fn joined(args: Seq<Seq<char>>) -> Seq<char>
    decreases args.len(),
{
    if args.len() == 0 {
        Seq::empty()
    } else if args.len() == 1 {
        args[0]
    } else {
        joined(args.drop_last()) + seq![' '] + args.last()
    }
}

/// A command as shown: its settings, the program, a space, and the arguments
/// joined with spaces.
pub open spec fn command_text(c: CmdView) -> Seq<char> {
    env_text(c.envs) + c.program + seq![' '] + joined(c.args)
}

impl Cmd {
    /// A command that runs `program` with no arguments and no settings.
    pub fn new(program: &str) -> (r: Cmd)
        ensures
            r@ == (CmdView { program: program@, args: Seq::empty(), envs: Seq::empty() }),
    {
        let r = Cmd { program: program.to_owned(), args: Vec::new(), envs: Vec::new() };
        assert(string_views(r.args@) =~= Seq::<Seq<char>>::empty());
        assert(env_views(r.envs@) =~= Seq::<(Seq<char>, Seq<char>)>::empty());
        r
    }

    /// Appends one argument.
    pub fn arg(&mut self, arg: &str) -> (r: &mut Cmd)
        ensures
            r@ == (CmdView { args: old(self)@.args.push(arg@), ..old(self)@ }),
            *final(self) == *final(r),
    {
        self.args.push(arg.to_owned());
        assert(string_views(self.args@) =~= string_views(old(self).args@).push(arg@));
        self
    }

    /// Appends the arguments `args`, in order.
    pub fn args(&mut self, args: &[&str]) -> (r: &mut Cmd)
        ensures
            r@ == (CmdView {
                args: old(self)@.args + args@.map_values(|a: &str| a@),
                ..old(self)@
            }),
            *final(self) == *final(r),
    {
        let mut i: usize = 0;
        let ghost start = self@;
        assert(args@.map_values(|a: &str| a@).take(0) =~= Seq::<Seq<char>>::empty());
        assert(start.args + Seq::<Seq<char>>::empty() =~= start.args);
        while i < args.len()
            invariant
                i <= args@.len(),
                start == old(self)@,
                self@ == (CmdView {
                    args: start.args + args@.map_values(|a: &str| a@).take(i as int),
                    ..start
                }),
            decreases args@.len() - i,
        {
            let ghost prev = self.args@;
            self.args.push(args[i].to_owned());
            proof {
                let m = args@.map_values(|a: &str| a@);
                assert(string_views(self.args@) =~= string_views(prev).push(args@[i as int]@));
                assert(m.take(i + 1 as int) =~= m.take(i as int).push(args@[i as int]@));
                assert(string_views(self.args@) =~= start.args + m.take(i + 1 as int));
            }
            i += 1;
        }
        assert(args@.map_values(|a: &str| a@).take(i as int) =~= args@.map_values(|a: &str| a@));
        self
    }

    /// Appends the environment setting `key=value`.
    pub fn env(&mut self, key: &str, value: &str) -> (r: &mut Cmd)
        ensures
            r@ == (CmdView { envs: old(self)@.envs.push((key@, value@)), ..old(self)@ }),
            *final(self) == *final(r),
    {
        self.envs.push((key.to_owned(), value.to_owned()));
        assert(env_views(self.envs@) =~= env_views(old(self).envs@).push((key@, value@)));
        self
    }

    /// The program.
    pub fn program(&self) -> (r: &String)
        ensures
            r@ == self@.program,
    {
        &self.program
    }

    /// The arguments, in order.
    pub fn arg_list(&self) -> (r: &Vec<String>)
        ensures
            string_views(r@) == self@.args,
    {
        &self.args
    }

    /// The environment settings, in order.
    pub fn env_list(&self) -> (r: &Vec<(String, String)>)
        ensures
            env_views(r@) == self@.envs,
    {
        &self.envs
    }

    /// The command as shown: `LC_ALL=C.UTF-8 /usr/bin/dnf clean all`.
    pub fn to_string(&self) -> (r: String)
        ensures
            r@ == command_text(self@),
    {
        let mut s = String::new();
        let mut i: usize = 0;
        let ghost envs = self@.envs;
        assert(envs.take(0) =~= Seq::<(Seq<char>, Seq<char>)>::empty());
        while i < self.envs.len()
            invariant
                i <= self.envs@.len(),
                envs == env_views(self.envs@),
                s@ == env_text(envs.take(i as int)),
            decreases self.envs@.len() - i,
        {
            let (k, v) = &self.envs[i];
            s.append(k.as_str());
            push_char(&mut s, '=');
            s.append(v.as_str());
            push_char(&mut s, ' ');
            proof {
                let t = envs.take(i + 1 as int);
                assert(t.drop_last() =~= envs.take(i as int));
                assert(t.last() == (k@, v@));
                assert(s@ =~= env_text(t));
            }
            i += 1;
        }
        assert(envs.take(i as int) =~= envs);
        s.append(self.program.as_str());
        push_char(&mut s, ' ');
        let ghost prefix = s@;
        let ghost args = self@.args;
        let mut j: usize = 0;
        assert(args.take(0) =~= Seq::<Seq<char>>::empty());
        assert(prefix + joined(args.take(0)) =~= prefix);
        while j < self.args.len()
            invariant
                j <= self.args@.len(),
                args == string_views(self.args@),
                s@ == prefix + joined(args.take(j as int)),
            decreases self.args@.len() - j,
        {
            let ghost before = s@;
            if j > 0 {
                push_char(&mut s, ' ');
            }
            s.append(self.args[j].as_str());
            proof {
                let t = args.take(j + 1 as int);
                assert(t.drop_last() =~= args.take(j as int));
                assert(t.last() == self.args@[j as int]@);
                if j == 0 {
                    assert(t =~= seq![t[0]]);
                }
                assert(s@ =~= prefix + joined(t));
            }
            j += 1;
        }
        assert(args.take(j as int) =~= args);
        assert(s@ =~= command_text(self@));
        s
    }
}

} // verus!
