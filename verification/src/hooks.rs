//! Pre/post custom drawing hooks.
//!
//! A host can inject its own drawing before and after an overlay element's
//! built-in content. A hook returns [`DrawCommand`]s which the element renders
//! through the same backend as its built-ins.
//!
//! Ordering is z-order: commands are drawn in sequence, so a **pre** hook draws
//! *beneath* the built-ins (but over the video) and a **post** hook draws *over*
//! everything:
//!
//! ```text
//! [ pre-hook commands ] [ built-in commands ] [ post-hook commands ]
//!   under built-ins        boxes/labels/...      over built-ins
//! ```

use vstd::prelude::*;

use crate::render::{append_commands, DrawCommand};

verus! {

/// Information about the frame a draw hook is rendering into.
#[derive(Debug, Clone, Copy)]
pub struct DrawHookContext {
    pub width: i32,
    pub height: i32,
}

/// A hook that emits draw commands before or after an element's built-in
/// overlay. Any `Fn(&DrawHookContext) -> Vec<DrawCommand>` is a `DrawHook`.
pub trait DrawHook: Send + Sync {
    /// The hook can draw into a frame. A hook that does not say can draw into any.
    open spec fn ready(&self, ctx: DrawHookContext) -> bool {
        true
    }

    /// What the hook may draw into a frame. A hook that does not say may draw anything.
    open spec fn draws(&self, ctx: DrawHookContext, commands: Seq<DrawCommand>) -> bool {
        true
    }

    fn draw(&self, ctx: &DrawHookContext) -> (r: Vec<DrawCommand>)
        requires
            self.ready(*ctx),
        ensures
            self.draws(*ctx, r@),
    ;
}

impl<F> DrawHook for F where F: Fn(&DrawHookContext) -> Vec<DrawCommand> + Send + Sync {
    open spec fn ready(&self, ctx: DrawHookContext) -> bool {
        self.requires((&ctx,))
    }

    open spec fn draws(&self, ctx: DrawHookContext, commands: Seq<DrawCommand>) -> bool {
        exists|r: Vec<DrawCommand>| #[trigger] self.ensures((&ctx,), r) && r@ == commands
    }

    fn draw(&self, ctx: &DrawHookContext) -> (r: Vec<DrawCommand>) {
        self(ctx)
    }
}

/// The pre/post draw hooks attached to an element.
pub struct DrawHooks {
    pre: Option<Box<dyn DrawHook>>,
    post: Option<Box<dyn DrawHook>>,
}

impl Default for DrawHooks {
    fn default() -> (r: Self)
        ensures
            r.bare(),
    {
        DrawHooks { pre: None, post: None }
    }
}

/// What is drawn of an optional list of commands.
pub open spec fn listed(commands: Option<Vec<DrawCommand>>) -> Seq<DrawCommand> {
    match commands {
        Some(commands) => commands@,
        None => Seq::empty(),
    }
}

/// The final command list: what the pre hook drew, then the element's `builtins`, then
/// what the post hook drew. A hook that is unset contributes nothing.
pub fn compose_commands(
    before: Option<Vec<DrawCommand>>,
    builtins: &Vec<DrawCommand>,
    after: Option<Vec<DrawCommand>>,
) -> (r: Vec<DrawCommand>)
    ensures
        r@ == listed(before) + builtins@ + listed(after),
{
    let mut out: Vec<DrawCommand> = Vec::new();
    if let Some(commands) = &before {
        append_commands(&mut out, commands);
    }
    assert(out@ =~= listed(before));
    append_commands(&mut out, builtins);
    if let Some(commands) = &after {
        append_commands(&mut out, commands);
    }
    assert(out@ =~= listed(before) + builtins@ + listed(after));
    out
}

impl DrawHooks {
    /// The hooks can draw into every frame.
    #[verifier::type_invariant]
    spec fn drawing(self) -> bool {
        &&& self.pre matches Some(hook) ==> forall|ctx: DrawHookContext| #[trigger] hook.ready(ctx)
        &&& self.post matches Some(hook) ==> forall|ctx: DrawHookContext| #[trigger]
            hook.ready(ctx)
    }

    pub closed spec fn has_pre(self) -> bool {
        self.pre is Some
    }

    pub closed spec fn has_post(self) -> bool {
        self.post is Some
    }

    /// What may be drawn beneath the built-ins: what the pre hook may draw, or nothing.
    pub closed spec fn beneath(self, ctx: DrawHookContext, commands: Seq<DrawCommand>) -> bool {
        match self.pre {
            Some(hook) => hook.draws(ctx, commands),
            None => commands.len() == 0,
        }
    }

    /// What may be drawn over the built-ins: what the post hook may draw, or nothing.
    pub closed spec fn above(self, ctx: DrawHookContext, commands: Seq<DrawCommand>) -> bool {
        match self.post {
            Some(hook) => hook.draws(ctx, commands),
            None => commands.len() == 0,
        }
    }

    /// No hook is set, so that nothing is drawn but the built-ins.
    pub open spec fn bare(self) -> bool {
        &&& !self.has_pre()
        &&& !self.has_post()
        &&& forall|ctx: DrawHookContext, commands: Seq<DrawCommand>| #[trigger]
            self.beneath(ctx, commands) == (commands.len() == 0)
        &&& forall|ctx: DrawHookContext, commands: Seq<DrawCommand>| #[trigger]
            self.above(ctx, commands) == (commands.len() == 0)
    }

    /// The built-ins that are drawn: all of them, unless hooks replace them.
    pub open spec fn shown(self, suppress: bool, builtins: Seq<DrawCommand>) -> Seq<DrawCommand> {
        if suppress && (self.has_pre() || self.has_post()) {
            Seq::empty()
        } else {
            builtins
        }
    }

    /// The hooks wrap the built-ins: first what may be drawn beneath, then `builtins`, then
    /// what may be drawn above, each for the frame at hand.
    pub open spec fn wraps(
        self,
        ctx: DrawHookContext,
        before: Seq<DrawCommand>,
        builtins: Seq<DrawCommand>,
        after: Seq<DrawCommand>,
        commands: Seq<DrawCommand>,
    ) -> bool {
        &&& self.beneath(ctx, before)
        &&& self.above(ctx, after)
        &&& commands == before + builtins + after
    }

    pub fn set_pre(&mut self, hook: Box<dyn DrawHook>)
        requires
            forall|ctx: DrawHookContext| #[trigger] hook.ready(ctx),
        ensures
            final(self).has_pre(),
            final(self).has_post() == old(self).has_post(),
            forall|ctx: DrawHookContext, commands: Seq<DrawCommand>| #[trigger]
                final(self).beneath(ctx, commands) == hook.draws(ctx, commands),
            forall|ctx: DrawHookContext, commands: Seq<DrawCommand>| #[trigger]
                final(self).above(ctx, commands) == old(self).above(ctx, commands),
    {
        proof {
            use_type_invariant(&*self);
        }
        let set = Some(hook);
        self.pre = set;
    }

    pub fn set_post(&mut self, hook: Box<dyn DrawHook>)
        requires
            forall|ctx: DrawHookContext| #[trigger] hook.ready(ctx),
        ensures
            final(self).has_post(),
            final(self).has_pre() == old(self).has_pre(),
            forall|ctx: DrawHookContext, commands: Seq<DrawCommand>| #[trigger]
                final(self).above(ctx, commands) == hook.draws(ctx, commands),
            forall|ctx: DrawHookContext, commands: Seq<DrawCommand>| #[trigger]
                final(self).beneath(ctx, commands) == old(self).beneath(ctx, commands),
    {
        proof {
            use_type_invariant(&*self);
        }
        let set = Some(hook);
        self.post = set;
    }

    pub fn clear(&mut self)
        ensures
            final(self).bare(),
    {
        proof {
            use_type_invariant(&*self);
        }
        self.pre = None;
        self.post = None;
    }

    /// Whether a hook is set.
    pub fn has_hooks(&self) -> (r: bool)
        ensures
            r == (self.has_pre() || self.has_post()),
            !r == self.bare(),
    {
        let r = self.pre.is_some() || self.post.is_some();
        proof {
            if !r {
                assert(self.bare());
            }
        }
        r
    }

    /// Whether the element's own drawing is left out. Suppression only applies when a hook
    /// is set, so it replaces built-ins rather than silently blanking the overlay when
    /// nothing draws.
    pub fn suppresses_builtins(&self, suppress: bool) -> (r: bool)
        ensures
            r == (suppress && (self.has_pre() || self.has_post())),
    {
        suppress && self.has_hooks()
    }

    /// Build the final command list: pre-hook output, then the element's
    /// `builtins`, then post-hook output. Hooks that are unset contribute
    /// nothing, so with no hooks this is just `builtins`.
    pub fn compose(&self, builtins: &Vec<DrawCommand>, ctx: &DrawHookContext) -> (r: Vec<
        DrawCommand,
    >)
        ensures
            exists|before: Seq<DrawCommand>, after: Seq<DrawCommand>| #[trigger]
                self.wraps(*ctx, before, builtins@, after, r@),
            self.bare() ==> r@ == builtins@,
    {
        proof {
            use_type_invariant(self);
        }
        let before = match &self.pre {
            Some(hook) => Some(hook.draw(ctx)),
            None => None,
        };
        let after = match &self.post {
            Some(hook) => Some(hook.draw(ctx)),
            None => None,
        };
        let ghost b = listed(before);
        let ghost a = listed(after);
        let r = compose_commands(before, builtins, after);
        assert(self.wraps(*ctx, b, builtins@, a, r@));
        proof {
            if self.bare() {
                assert(b + builtins@ + a =~= builtins@);
            }
        }
        r
    }

    /// Wrap built-in commands with the pre/post draw hooks. In suppression
    /// mode the built-ins are dropped, so the host's hooks fully replace them
    /// (the pre and post hooks still run).
    pub fn compose_with_hooks(
        &self,
        builtins: &Vec<DrawCommand>,
        suppress: bool,
        width: i32,
        height: i32,
    ) -> (r: Vec<DrawCommand>)
        ensures
            exists|before: Seq<DrawCommand>, after: Seq<DrawCommand>| #[trigger]
                self.wraps(
                    (DrawHookContext { width, height }),
                    before,
                    self.shown(suppress, builtins@),
                    after,
                    r@,
                ),
            self.bare() ==> r@ == builtins@,
    {
        let ctx = DrawHookContext { width, height };
        if self.suppresses_builtins(suppress) {
            let none: Vec<DrawCommand> = Vec::new();
            let r = self.compose(&none, &ctx);
            assert(none@ =~= Seq::<DrawCommand>::empty());
            assert(self.shown(suppress, builtins@) == none@);
            r
        } else {
            assert(self.shown(suppress, builtins@) == builtins@);
            self.compose(builtins, &ctx)
        }
    }
}

/// What a hook draws beneath comes before every built-in command, and what a hook draws above
/// after them; each part is complete and in its own order.
pub proof fn law_hooks_draw_around_the_builtins(
    hooks: DrawHooks,
    ctx: DrawHookContext,
    before: Seq<DrawCommand>,
    builtins: Seq<DrawCommand>,
    after: Seq<DrawCommand>,
    commands: Seq<DrawCommand>,
)
    requires
        hooks.wraps(ctx, before, builtins, after, commands),
    ensures
        commands.len() == before.len() + builtins.len() + after.len(),
        forall|i: int| 0 <= i < before.len() ==> commands[i] == #[trigger] before[i],
        forall|i: int|
            0 <= i < builtins.len() ==> commands[before.len() + i] == #[trigger] builtins[i],
        forall|i: int|
            0 <= i < after.len() ==> commands[before.len() + builtins.len() + i]
                == #[trigger] after[i],
{
}

/// Built-ins are left out only where they are to be suppressed and a hook draws in their
/// place.
pub proof fn law_builtins_show_without_hooks(
    hooks: DrawHooks,
    suppress: bool,
    builtins: Seq<DrawCommand>,
)
    ensures
        !suppress ==> hooks.shown(suppress, builtins) == builtins,
        !hooks.has_pre() && !hooks.has_post() ==> hooks.shown(suppress, builtins) == builtins,
        suppress && (hooks.has_pre() || hooks.has_post()) ==> hooks.shown(
            suppress,
            builtins,
        ).len() == 0,
{
}

} // verus!
