//! The `setworldspawn` command: its tree, the choices its executors make and
//! the messages it answers with.

use vstd::prelude::*;

use crate::text::{TextMessage, i32_to_decimal, int_decimal};
use crate::version::{JavaMinecraftVersion, spec_v26_1};

verus! {

/// A block position.
#[derive(Clone, Copy, Debug, PartialEq, Eq, Structural)]
pub struct BlockPos {
    pub x: i32,
    pub y: i32,
    pub z: i32,
}

impl BlockPos {
    /// The position `(x, y, z)`.
    pub fn new(x: i32, y: i32, z: i32) -> (p: Self)
        ensures
            p == (BlockPos { x, y, z }),
    {
        BlockPos { x, y, z }
    }
}

/// How a command argument is parsed.
#[derive(Clone, Copy, Debug, PartialEq, Eq, Structural)]
pub enum ArgumentConsumer {
    BlockPos,
    Rotation,
}

/// The executors of the `setworldspawn` command.
#[derive(Clone, Copy, Debug, PartialEq, Eq, Structural)]
pub enum WorldSpawnExecutor {
    /// No arguments: the sender's own position.
    NoArgs,
    /// A position argument.
    Default,
    /// A position and an angle argument.
    Angle,
}

/// A named argument with its executor and the arguments that may follow.
#[derive(Debug)]
pub struct ArgumentNode {
    pub name: String,
    pub consumer: ArgumentConsumer,
    pub executor: Option<WorldSpawnExecutor>,
    pub children: Vec<ArgumentNode>,
}

/// A command: its names, description, executor without arguments and first
/// arguments.
#[derive(Debug)]
pub struct CommandTree {
    pub names: Vec<String>,
    pub description: String,
    pub executor: Option<WorldSpawnExecutor>,
    pub children: Vec<ArgumentNode>,
}

/// An argument node named `name`, parsed by `consumer`, with no executor and
/// no children yet.
pub fn argument(name: String, consumer: ArgumentConsumer) -> (n: ArgumentNode)
    ensures
        n.name == name,
        n.consumer == consumer,
        n.executor is None,
        n.children@.len() == 0,
{
    ArgumentNode { name, consumer, executor: None, children: Vec::new() }
}

impl ArgumentNode {
    /// The node, run by `executor` when the command ends here.
    pub fn execute(self, executor: WorldSpawnExecutor) -> (n: Self)
        ensures
            n.name == self.name,
            n.consumer == self.consumer,
            n.executor == Some(executor),
            n.children@ == self.children@,
    {
        ArgumentNode { executor: Some(executor), ..self }
    }

    /// The node with `child` as a further argument.
    pub fn then_arg(self, child: ArgumentNode) -> (n: Self)
        ensures
            n.name == self.name,
            n.consumer == self.consumer,
            n.executor == self.executor,
            n.children@ == self.children@.push(child),
    {
        let mut children = self.children;
        children.push(child);
        ArgumentNode { name: self.name, consumer: self.consumer, executor: self.executor, children }
    }
}

impl CommandTree {
    /// A command called by `names`, with no executor and no arguments yet.
    pub fn new(names: Vec<String>, description: String) -> (t: Self)
        ensures
            t.names@ == names@,
            t.description == description,
            t.executor is None,
            t.children@.len() == 0,
    {
        CommandTree { names, description, executor: None, children: Vec::new() }
    }

    /// The command, run by `executor` when given no arguments.
    pub fn execute(self, executor: WorldSpawnExecutor) -> (t: Self)
        ensures
            t.names@ == self.names@,
            t.description == self.description,
            t.executor == Some(executor),
            t.children@ == self.children@,
    {
        CommandTree { executor: Some(executor), ..self }
    }

    /// The command with `child` as a first argument.
    pub fn then_arg(self, child: ArgumentNode) -> (t: Self)
        ensures
            t.names@ == self.names@,
            t.description == self.description,
            t.executor == self.executor,
            t.children@ == self.children@.push(child),
    {
        let mut children = self.children;
        children.push(child);
        CommandTree {
            names: self.names,
            description: self.description,
            executor: self.executor,
            children,
        }
    }
}

/// The tree of `setworldspawn`: run bare, with a position, or with a
/// position and an angle.
pub fn init_command_tree() -> (t: CommandTree)
    ensures
        t.names@.len() == 1,
        t.names@[0]@ == "setworldspawn"@,
        t.description@ == "Sets the world spawn point."@,
        t.executor == Some(WorldSpawnExecutor::NoArgs),
        t.children@.len() == 1,
        t.children@[0].name@ == "position"@,
        t.children@[0].consumer == ArgumentConsumer::BlockPos,
        t.children@[0].executor == Some(WorldSpawnExecutor::Default),
        t.children@[0].children@.len() == 1,
        t.children@[0].children@[0].name@ == "angle"@,
        t.children@[0].children@[0].consumer == ArgumentConsumer::Rotation,
        t.children@[0].children@[0].executor == Some(WorldSpawnExecutor::Angle),
        t.children@[0].children@[0].children@.len() == 0,
{
    let mut names: Vec<String> = Vec::new();
    names.push(String::from_str("setworldspawn"));
    CommandTree::new(names, String::from_str("Sets the world spawn point.")).execute(
        WorldSpawnExecutor::NoArgs,
    ).then_arg(
        argument(String::from_str("position"), ArgumentConsumer::BlockPos).execute(
            WorldSpawnExecutor::Default,
        ).then_arg(
            argument(String::from_str("angle"), ArgumentConsumer::Rotation).execute(
                WorldSpawnExecutor::Angle,
            ),
        ),
    )
}

// ---------------------------------------------------------------------------
// Executors
// ---------------------------------------------------------------------------

/// A parsed argument. Angles are carried as the bit patterns of their
/// single-precision values.
#[derive(Clone, Copy, Debug, PartialEq, Eq, Structural)]
pub enum Arg {
    BlockPos(BlockPos),
    /// Yaw, whether relative, pitch, whether relative.
    Rotation(u32, bool, u32, bool),
}

/// The arguments a command was given, by name.
#[derive(Debug)]
pub struct ConsumedArgs {
    pub entries: Vec<(String, Arg)>,
}

/// The argument named `name` (the first, should one name occur twice).
pub open spec fn arg_named(entries: Seq<(String, Arg)>, name: Seq<char>) -> Option<Arg> {
    if exists|i: int| 0 <= i < entries.len() && #[trigger] entries[i].0@ == name {
        let i = choose|i: int|
            0 <= i < entries.len() && #[trigger] entries[i].0@ == name && (forall|j: int|
                0 <= j < i ==> entries[j].0@ != name);
        Some(entries[i].1)
    } else {
        None
    }
}

impl ConsumedArgs {
    /// The argument named `name`, if given.
    pub fn get(&self, name: &String) -> (a: Option<Arg>)
        ensures
            a == arg_named(self.entries@, name@),
    {
        let n = self.entries.len();
        let mut i: usize = 0;
        while i < n
            invariant
                n == self.entries@.len(),
                i <= n,
                forall|j: int| 0 <= j < i ==> #[trigger] self.entries@[j].0@ != name@,
            decreases n - i,
        {
            if self.entries[i].0 == *name {
                proof {
                    let e = self.entries@;
                    assert(e[i as int].0@ == name@);
                    let k = choose|k: int|
                        0 <= k < e.len() && #[trigger] e[k].0@ == name@ && (forall|j: int|
                            0 <= j < k ==> e[j].0@ != name@);
                    assert(forall|j: int| 0 <= j < i ==> e[j].0@ != name@);
                    if k < i {
                        assert(e[k].0@ != name@);
                    } else if k > i {
                        assert(e[i as int].0@ != name@);
                    }
                }
                return Some(self.entries[i].1);
            }
            i = i + 1;
        }
        None
    }
}

/// Why a command did not run.
#[derive(Debug)]
pub enum CommandError {
    /// An argument the executor needs was not given.
    InvalidConsumption(Option<String>),
    /// The command ran and refused, with a message for the sender.
    CommandFailed(TextMessage),
}

/// Where and how a spawn point is to be set; angles as single-precision bit
/// patterns.
#[derive(Clone, Copy, Debug, PartialEq, Eq, Structural)]
pub struct SpawnRequest {
    pub position: BlockPos,
    pub yaw_bits: u32,
    pub pitch_bits: u32,
}

/// The literal text of a failure message.
pub open spec fn is_text_failure(e: CommandError, text: Seq<char>) -> bool {
    e matches CommandError::CommandFailed(TextMessage::Text(t)) && t@ == text
}

/// Run without arguments: a player sets the spawn to the block it stands
/// in, facing yaw and pitch zero; the console is told to give a position;
/// any other sender is refused.
pub fn no_args_request(player_block_pos: Option<BlockPos>, is_console: bool) -> (r: Result<
    SpawnRequest,
    CommandError,
>)
    ensures
        player_block_pos matches Some(p) ==> r == Ok::<SpawnRequest, CommandError>(
            SpawnRequest { position: p, yaw_bits: 0, pitch_bits: 0 },
        ),
        player_block_pos is None && is_console ==> (r matches Err(e) && is_text_failure(
            e,
            "You must specify a Position!"@,
        )),
        player_block_pos is None && !is_console ==> (r matches Err(e) && is_text_failure(
            e,
            "Failed to get Sender as Player!"@,
        )),
{
    match player_block_pos {
        Some(p) => Ok(SpawnRequest { position: p, yaw_bits: 0, pitch_bits: 0 }),
        None => if is_console {
            Err(
                CommandError::CommandFailed(
                    TextMessage::Text(String::from_str("You must specify a Position!")),
                ),
            )
        } else {
            Err(
                CommandError::CommandFailed(
                    TextMessage::Text(String::from_str("Failed to get Sender as Player!")),
                ),
            )
        },
    }
}

/// The argument is missing or of the wrong kind, reported by its name.
pub open spec fn is_invalid_consumption(e: CommandError, name: Seq<char>) -> bool {
    e matches CommandError::InvalidConsumption(Some(n)) && n@ == name
}

/// Run with a position: spawn there, facing yaw and pitch zero.
pub fn default_request(args: &ConsumedArgs) -> (r: Result<SpawnRequest, CommandError>)
    ensures
        arg_named(args.entries@, "position"@) matches Some(Arg::BlockPos(p)) ==> r == Ok::<
            SpawnRequest,
            CommandError,
        >(SpawnRequest { position: p, yaw_bits: 0, pitch_bits: 0 }),
        !(arg_named(args.entries@, "position"@) matches Some(Arg::BlockPos(_))) ==> (r matches Err(
            e,
        ) && is_invalid_consumption(e, "position"@)),
{
    let name = String::from_str("position");
    match args.get(&name) {
        Some(Arg::BlockPos(p)) => Ok(SpawnRequest { position: p, yaw_bits: 0, pitch_bits: 0 }),
        _ => Err(CommandError::InvalidConsumption(Some(name))),
    }
}

/// Run with a position and an angle: spawn there facing the angle's yaw
/// and pitch, whether or not they were given as relative.
pub fn angle_request(args: &ConsumedArgs) -> (r: Result<SpawnRequest, CommandError>)
    ensures
        !(arg_named(args.entries@, "position"@) matches Some(Arg::BlockPos(_))) ==> (r matches Err(
            e,
        ) && is_invalid_consumption(e, "position"@)),
        arg_named(args.entries@, "position"@) matches Some(Arg::BlockPos(_)) && !(arg_named(
            args.entries@,
            "angle"@,
        ) matches Some(Arg::Rotation(_, _, _, _))) ==> (r matches Err(e) && is_invalid_consumption(
            e,
            "angle"@,
        )),
        arg_named(args.entries@, "position"@) matches Some(Arg::BlockPos(p)) ==> arg_named(
            args.entries@,
            "angle"@,
        ) matches Some(Arg::Rotation(yaw, _, pitch, _)) ==> r == Ok::<SpawnRequest, CommandError>(
            SpawnRequest { position: p, yaw_bits: yaw, pitch_bits: pitch },
        ),
{
    let pos_name = String::from_str("position");
    let p = match args.get(&pos_name) {
        Some(Arg::BlockPos(p)) => p,
        _ => {
            return Err(CommandError::InvalidConsumption(Some(pos_name)));
        },
    };
    let angle_name = String::from_str("angle");
    match args.get(&angle_name) {
        Some(Arg::Rotation(yaw, _, pitch, _)) => Ok(
            SpawnRequest { position: p, yaw_bits: yaw, pitch_bits: pitch },
        ),
        _ => Err(CommandError::InvalidConsumption(Some(angle_name))),
    }
}

// ---------------------------------------------------------------------------
// Setting the spawn
// ---------------------------------------------------------------------------

/// The world spawn point can only be set in the overworld or its caves
/// variant.
pub open spec fn is_spawn_dimension(name: Seq<char>) -> bool {
    name == "minecraft:overworld"@ || name == "minecraft:overworld_caves"@
}

/// Checks that the sender has a world (named by its dimension) in which the
/// spawn can be set.
pub fn check_spawn_world(world_dimension: Option<&String>) -> (r: Result<(), CommandError>)
    ensures
        world_dimension is None ==> (r matches Err(e) && is_text_failure(e, "Failed to get world."@)),
        world_dimension matches Some(d) ==> (r is Ok <==> is_spawn_dimension(d@)),
        world_dimension matches Some(d) ==> !is_spawn_dimension(d@) ==> (r matches Err(
            CommandError::CommandFailed(TextMessage::Translate { key, args }),
        ) && key@ == "commands.setworldspawn.failure.not_overworld"@ && args@.len() == 0),
{
    match world_dimension {
        None => Err(
            CommandError::CommandFailed(TextMessage::Text(String::from_str("Failed to get world."))),
        ),
        Some(d) => {
            let overworld = String::from_str("minecraft:overworld");
            let caves = String::from_str("minecraft:overworld_caves");
            if *d != overworld && *d != caves {
                Err(
                    CommandError::CommandFailed(
                        TextMessage::Translate {
                            key: String::from_str("commands.setworldspawn.failure.not_overworld"),
                            args: Vec::new(),
                        },
                    ),
                )
            } else {
                Ok(())
            }
        },
    }
}

/// A world spawn point: its block position and its angles, each the bit
/// pattern of its `f32`.
#[derive(Clone, Copy, Debug, PartialEq, Eq, Structural)]
pub struct SpawnPoint {
    pub position: BlockPos,
    pub yaw_bits: u32,
    pub pitch_bits: u32,
}

/// The change offered to plugins before the spawn point is set: the spawn
/// point as it is and the one to set, which plugins may alter.
#[derive(Clone, Copy, Debug, PartialEq, Eq, Structural)]
pub struct SpawnChange {
    pub previous: SpawnPoint,
    pub next: SpawnPoint,
}

/// The change from spawn point `current` to the one `request` asks for.
pub open spec fn spawn_change(current: SpawnPoint, request: SpawnRequest) -> SpawnChange {
    SpawnChange {
        previous: current,
        next: SpawnPoint {
            position: request.position,
            yaw_bits: request.yaw_bits,
            pitch_bits: request.pitch_bits,
        },
    }
}

/// Starts setting the world spawn in the sender's world (named by its
/// dimension): refused as `check_spawn_world` refuses, else the change from
/// the current spawn point to the requested one, to be offered to plugins.
pub fn begin_spawn_change(
    world_dimension: Option<&String>,
    current: SpawnPoint,
    request: SpawnRequest,
) -> (r: Result<SpawnChange, CommandError>)
    ensures
        world_dimension is None ==> (r matches Err(e) && is_text_failure(e, "Failed to get world."@)),
        world_dimension matches Some(d) ==> (r is Ok <==> is_spawn_dimension(d@)),
        world_dimension matches Some(d) ==> !is_spawn_dimension(d@) ==> (r matches Err(
            CommandError::CommandFailed(TextMessage::Translate { key, args }),
        ) && key@ == "commands.setworldspawn.failure.not_overworld"@ && args@.len() == 0),
        r matches Ok(c) ==> c == spawn_change(current, request),
        r matches Ok(c) ==> c.previous == current && c.next == (SpawnPoint {
            position: request.position,
            yaw_bits: request.yaw_bits,
            pitch_bits: request.pitch_bits,
        }),
{
    match check_spawn_world(world_dimension) {
        Err(e) => Err(e),
        Ok(()) => Ok(
            SpawnChange {
                previous: current,
                next: SpawnPoint {
                    position: request.position,
                    yaw_bits: request.yaw_bits,
                    pitch_bits: request.pitch_bits,
                },
            },
        ),
    }
}

/// Ends setting the world spawn once plugins have seen `change`: the spawn
/// point to store is the change's new one, as plugins left it, and the
/// command's result is 1.
pub fn finish_spawn_change(change: &SpawnChange) -> (r: (SpawnPoint, i32))
    ensures
        r == (change.next, 1i32),
{
    (change.next, 1)
}

/// Clients before 26.1 only know the older success message; senders with no
/// Java release (console, remote console, other editions) get the newer.
pub open spec fn supports_new_message(client_version: Option<JavaMinecraftVersion>) -> bool {
    match client_version {
        None => true,
        Some(v) => !v.precedes(spec_v26_1()),
    }
}

/// The translation key of the success message.
pub open spec fn success_key(client_version: Option<JavaMinecraftVersion>) -> Seq<char> {
    if supports_new_message(client_version) {
        "commands.setworldspawn.success.new"@
    } else {
        "commands.setworldspawn.success"@
    }
}

/// The arguments of the success message: x, y, z and yaw, then for the
/// newer message pitch and dimension.
pub open spec fn success_args(
    client_version: Option<JavaMinecraftVersion>,
    position: BlockPos,
    yaw: Seq<char>,
    pitch: Seq<char>,
    dimension_name: Seq<char>,
) -> Seq<Seq<char>> {
    let base = seq![
        int_decimal(position.x as int),
        int_decimal(position.y as int),
        int_decimal(position.z as int),
        yaw,
    ];
    if supports_new_message(client_version) {
        base + seq![pitch, dimension_name]
    } else {
        base
    }
}

/// The message confirming a new spawn point: for clients that know it, the
/// newer message with position, yaw, pitch and dimension; for older
/// clients, the older message with position and yaw. Yaw and pitch come as
/// the text of their values.
pub fn success_message(
    client_version: Option<JavaMinecraftVersion>,
    position: BlockPos,
    yaw: String,
    pitch: String,
    dimension_name: String,
) -> (m: TextMessage)
    ensures
        m matches TextMessage::Translate { key, args } && key@ == success_key(client_version)
            && args@.map_values(|a: String| a@) == success_args(
            client_version,
            position,
            yaw@,
            pitch@,
            dimension_name@,
        ),
{
    let supports_new = match client_version {
        None => true,
        Some(v) => !v.is_before(&JavaMinecraftVersion::v26_1()),
    };
    let ghost yaw_view = yaw@;
    let ghost pitch_view = pitch@;
    let ghost dimension_view = dimension_name@;
    let mut args: Vec<String> = Vec::new();
    args.push(i32_to_decimal(position.x));
    args.push(i32_to_decimal(position.y));
    args.push(i32_to_decimal(position.z));
    args.push(yaw);
    if supports_new {
        args.push(pitch);
        args.push(dimension_name);
        proof {
            assert(args@.map_values(|a: String| a@) =~= success_args(
                client_version,
                position,
                yaw_view,
                pitch_view,
                dimension_view,
            ));
        }
        TextMessage::Translate { key: String::from_str("commands.setworldspawn.success.new"), args }
    } else {
        proof {
            assert(args@.map_values(|a: String| a@) =~= success_args(
                client_version,
                position,
                yaw_view,
                pitch_view,
                dimension_view,
            ));
        }
        TextMessage::Translate { key: String::from_str("commands.setworldspawn.success"), args }
    }
}

/// The success message's arguments are, for every client, the decimal x, y
/// and z of the new spawn point followed by the yaw's text; a client that
/// knows the newer message gets the pitch's text and the dimension's name
/// after them, and an older client nothing more.
pub proof fn lemma_success_args_layout(
    client_version: Option<JavaMinecraftVersion>,
    position: BlockPos,
    yaw: Seq<char>,
    pitch: Seq<char>,
    dimension_name: Seq<char>,
)
    ensures
        ({
            let a = success_args(client_version, position, yaw, pitch, dimension_name);
            &&& a.len() >= 4
            &&& a[0] == int_decimal(position.x as int)
            &&& a[1] == int_decimal(position.y as int)
            &&& a[2] == int_decimal(position.z as int)
            &&& a[3] == yaw
            &&& supports_new_message(client_version) ==> a.len() == 6 && a[4] == pitch && a[5]
                == dimension_name
            &&& !supports_new_message(client_version) ==> a.len() == 4
        }),
{
}

/// A spawn change offered to plugins holds the spawn point as it is, with
/// its position and both angles untouched, as the previous one, and the
/// requested position and angles as the new one.
pub proof fn lemma_spawn_change_parts(current: SpawnPoint, request: SpawnRequest)
    ensures
        spawn_change(current, request).previous.position == current.position,
        spawn_change(current, request).previous.yaw_bits == current.yaw_bits,
        spawn_change(current, request).previous.pitch_bits == current.pitch_bits,
        spawn_change(current, request).next.position == request.position,
        spawn_change(current, request).next.yaw_bits == request.yaw_bits,
        spawn_change(current, request).next.pitch_bits == request.pitch_bits,
{
}

} // verus!
